//! Dependencies between definitions: following each definition's reference, and finding
//! the definitions that depend on themselves.
use crate::parser::{Definition, Span, expr_span, expr_span_of};
use vstd::prelude::*;

verus! {

/// The definition reached from `d` by following `k` references.
pub open spec fn chain(b: Seq<Option<usize>>, d: int, k: nat) -> Option<int>
    decreases k,
{
    if k == 0 {
        Some(d)
    } else {
        match chain(b, d, (k - 1) as nat) {
            Some(x) => if 0 <= x < b.len() {
                match b[x] {
                    Some(t) => Some(t as int),
                    None => None,
                }
            } else {
                None
            },
            None => None,
        }
    }
}

/// Following references from `d` leads back to `d` after `m` steps, and not before.
pub open spec fn first_return(b: Seq<Option<usize>>, d: int, m: nat) -> bool {
    1 <= m <= b.len() && chain(b, d, m) == Some(d) && forall|m2: nat|
        1 <= m2 < m ==> chain(b, d, m2) != Some(d)
}

/// `d` depends on itself.
pub open spec fn on_cycle(b: Seq<Option<usize>>, d: int) -> bool {
    exists|m: nat| 1 <= m <= b.len() && chain(b, d, m) == Some(d)
}

/// Order of spans: by file, then start, then end.
pub open spec fn span_lt(a: Span, b: Span) -> bool {
    a.file < b.file || (a.file == b.file && (a.start < b.start || (a.start == b.start && a.end
        < b.end)))
}

pub fn span_less(a: Span, b: Span) -> (r: bool)
    ensures
        r == span_lt(a, b),
{
    a.file < b.file || (a.file == b.file && (a.start < b.start || (a.start == b.start && a.end
        < b.end)))
}

pub proof fn lemma_chain_in_range(b: Seq<Option<usize>>, d: int, k: nat)
    requires
        0 <= d < b.len(),
        forall|j: int| 0 <= j < b.len() ==> (#[trigger] b[j] matches Some(t) ==> t < b.len()),
    ensures
        chain(b, d, k) matches Some(x) ==> 0 <= x < b.len(),
    decreases k,
{
    if k > 0 {
        lemma_chain_in_range(b, d, (k - 1) as nat);
    }
}

/// Each span of `stack` is that of the reference of the definition reached after as many
/// steps as its position.
pub open spec fn stack_matches(b: Seq<Option<usize>>, defs: Seq<Definition>, d: int, stack: Seq<Span>) -> bool {
    forall|i: nat| #![trigger stack[i as int]] i < stack.len() ==> chain(b, d, i) is Some
        && stack[i as int] == expr_span(defs[chain(b, d, i)->Some_0].value)
}

proof fn lemma_stack_push(b: Seq<Option<usize>>, defs: Seq<Definition>, d: int, stack: Seq<Span>, x: int, s: Span)
    requires
        stack_matches(b, defs, d, stack),
        chain(b, d, stack.len()) == Some(x),
        s == expr_span(defs[x].value),
    ensures
        stack_matches(b, defs, d, stack.push(s)),
{
    assert forall|i: nat| #![trigger stack.push(s)[i as int]] i < stack.len() + 1 implies chain(b, d, i) is Some
        && stack.push(s)[i as int] == expr_span(defs[chain(b, d, i)->Some_0].value) by {
        if i < stack.len() {
            assert(stack.push(s)[i as int] == stack[i as int]);
        }
    }
}

/// Follows the references from `d`. Fails with the spans of the references on the way when
/// they lead back to `d`; otherwise returns the definitions reached, in order.
pub fn walk(defs: &Vec<Definition>, b: &Vec<Option<usize>>, d: usize) -> (r: Result<
    Vec<usize>,
    Vec<Span>,
>)
    requires
        b@.len() == defs@.len(),
        d < b@.len(),
        forall|j: int| 0 <= j < b@.len() ==> (#[trigger] b@[j] matches Some(t) ==> t < b@.len()),
    ensures
        match r {
            Err(stack) => {
                &&& first_return(b@, d as int, stack@.len() as nat)
                &&& stack_matches(b@, defs@, d as int, stack@)
            },
            Ok(deps) => {
                &&& !on_cycle(b@, d as int)
                &&& deps@.len() <= b@.len()
                &&& forall|i: int| #![trigger deps@[i]] 0 <= i < deps@.len() ==> chain(b@, d as int, (i + 1) as nat) == Some(deps@[i] as int)
                &&& deps@.len() == b@.len() || chain(b@, d as int, (deps@.len() + 1) as nat) is None
            },
        },
{
    let n = b.len();
    let mut cur = d;
    let mut stack: Vec<Span> = Vec::new();
    let mut deps: Vec<usize> = Vec::new();
    let mut k: usize = 0;
    while k < n
        invariant
            n == b@.len(),
            b@.len() == defs@.len(),
            d < n,
            cur < n,
            forall|j: int| 0 <= j < b@.len() ==> (#[trigger] b@[j] matches Some(t) ==> t < b@.len()),
            k <= n,
            chain(b@, d as int, k as nat) == Some(cur as int),
            stack@.len() == k,
            deps@.len() == k,
            forall|m: nat| 1 <= m <= k ==> chain(b@, d as int, m) != Some(d as int),
            stack_matches(b@, defs@, d as int, stack@),
            forall|i: int| #![trigger deps@[i]] 0 <= i < k ==> chain(b@, d as int, (i + 1) as nat) == Some(deps@[i] as int),
        decreases n - k,
    {
        match b[cur] {
            None => {
                assert(chain(b@, d as int, (k + 1) as nat) is None);
                proof {
                    assert forall|m: nat| 1 <= m <= b@.len() implies chain(b@, d as int, m) != Some(d as int) by {
                        if m > k {
                            lemma_chain_none_after(b@, d as int, (k + 1) as nat, m);
                        }
                    }
                }
                return Ok(deps);
            },
            Some(t) => {
                let ghost old_stack = stack@;
                let span = expr_span_of(&defs[cur].value);
                stack.push(span);
                proof {
                    lemma_stack_push(b@, defs@, d as int, old_stack, cur as int, span);
                }
                assert(chain(b@, d as int, (k + 1) as nat) == Some(t as int));
                if t == d {
                    assert(first_return(b@, d as int, (k + 1) as nat));
                    return Err(stack);
                }
                deps.push(t);
                cur = t;
                k = k + 1;
            },
        }
    }
    Ok(deps)
}

pub proof fn lemma_chain_none_after(b: Seq<Option<usize>>, d: int, k: nat, m: nat)
    requires
        chain(b, d, k) is None,
        k <= m,
    ensures
        chain(b, d, m) is None,
    decreases m - k,
{
    if k < m {
        lemma_chain_none_after(b, d, k, (m - 1) as nat);
    }
}

/// The cycle that `stack` describes is reported from its definition: no reference of the
/// cycle comes before the first one.
pub open spec fn reports_cycle(stack: Seq<Span>) -> bool {
    forall|i: int| 0 <= i < stack.len() ==> !span_lt(#[trigger] stack[i], stack[0])
}

pub fn is_reported(stack: &Vec<Span>) -> (r: bool)
    requires
        stack@.len() > 0,
    ensures
        r == reports_cycle(stack@),
{
    let mut i: usize = 0;
    while i < stack.len()
        invariant
            stack@.len() > 0,
            i <= stack@.len(),
            forall|j: int| 0 <= j < i ==> !span_lt(#[trigger] stack@[j], stack@[0]),
        decreases stack.len() - i,
    {
        if span_less(stack[i], stack[0]) {
            return false;
        }
        i = i + 1;
    }
    true
}

} // verus!
