//! Dotted module paths: joining names and stepping up to parents.
use vstd::prelude::*;

verus! {

/// `names` joined with `.`.
pub open spec fn join_dotted(names: Seq<Seq<char>>) -> Seq<char>
    decreases names.len(),
{
    if names.len() == 0 {
        Seq::empty()
    } else if names.len() == 1 {
        names[0]
    } else {
        join_dotted(names.drop_last()) + seq!['.'] + names.last()
    }
}

/// Index of the last `.` of `s` before `end`, if any.
pub open spec fn last_dot(s: Seq<char>, end: int) -> Option<int>
    decreases end,
{
    if end <= 0 {
        None
    } else if s[end - 1] == '.' {
        Some(end - 1)
    } else {
        last_dot(s, end - 1)
    }
}

/// `s` with its last `k` components removed, or `None` when it has fewer than `k`.
pub open spec fn drop_components(s: Seq<char>, k: nat) -> Option<Seq<char>>
    decreases k,
{
    if k == 0 {
        Some(s)
    } else {
        match last_dot(s, s.len() as int) {
            Some(p) => drop_components(s.subrange(0, p), (k - 1) as nat),
            None => if k == 1 {
                Some(Seq::empty())
            } else {
                None
            },
        }
    }
}

/// The path of an import from a module at `from`: `parents` components removed from it,
/// then `names` appended.
pub open spec fn import_target(from: Seq<char>, parents: nat, names: Seq<Seq<char>>) -> Option<
    Seq<char>,
> {
    if parents == 0 {
        Some(join_dotted(names))
    } else {
        match drop_components(from, parents) {
            Some(prefix) => if prefix.len() == 0 {
                Some(join_dotted(names))
            } else {
                Some(prefix + seq!['.'] + join_dotted(names))
            },
            None => None,
        }
    }
}

/// Appends `names` joined with `.`.
pub fn push_dotted(out: &mut Vec<char>, names: &Vec<Vec<char>>)
    ensures
        final(out)@ == old(out)@ + join_dotted(names@.map_values(|n: Vec<char>| n@)),
{
    let ghost start = out@;
    let mut i: usize = 0;
    while i < names.len()
        invariant
            i <= names@.len(),
            out@ == start + join_dotted(names@.take(i as int).map_values(|n: Vec<char>| n@)),
        decreases names.len() - i,
    {
        let ghost before = out@;
        if i > 0 {
            out.push('.');
        }
        let mut j: usize = 0;
        let ghost mid = out@;
        while j < names[i].len()
            invariant
                i < names@.len(),
                j <= names@[i as int]@.len(),
                out@ == mid + names@[i as int]@.take(j as int),
            decreases names@[i as int]@.len() - j,
        {
            out.push(names[i][j]);
            j = j + 1;
            assert(names@[i as int]@.take(j as int) =~= names@[i as int]@.take(j - 1).push(
                names@[i as int]@[j - 1],
            ));
        }
        assert(names@[i as int]@.take(j as int) =~= names@[i as int]@);
        i = i + 1;
        proof {
            let m = names@.take(i as int).map_values(|n: Vec<char>| n@);
            assert(m.drop_last() =~= names@.take(i - 1).map_values(|n: Vec<char>| n@));
            assert(m.last() == names@[i - 1]@);
            if i == 1 {
                assert(names@.take(0).map_values(|n: Vec<char>| n@).len() == 0);
                assert(out@ =~= start + join_dotted(m));
            } else {
                assert(out@ =~= start + join_dotted(m));
            }
        }
    }
    assert(names@.take(i as int) =~= names@);
}

/// The path of an import from a module at `from` (see `import_target`).
pub fn target_path(from: &Vec<char>, parents: usize, names: &Vec<Vec<char>>) -> (r: Option<
    Vec<char>,
>)
    ensures
        match r {
            Some(p) => import_target(from@, parents as nat, names@.map_values(|n: Vec<char>| n@))
                == Some(p@),
            None => import_target(from@, parents as nat, names@.map_values(|n: Vec<char>| n@))
                is None,
        },
{
    let ghost ns = names@.map_values(|n: Vec<char>| n@);
    if parents == 0 {
        let mut out: Vec<char> = Vec::new();
        push_dotted(&mut out, names);
        assert(out@ =~= join_dotted(ns));
        return Some(out);
    }
    // the prefix is from[0..end]
    let mut end: usize = from.len();
    let mut k: usize = parents;
    assert(from@.subrange(0, end as int) =~= from@);
    while k > 0
        invariant
            end <= from@.len(),
            k <= parents,
            0 < parents,
            drop_components(from@, parents as nat) == drop_components(from@.subrange(0, end as int), k as nat),
        decreases k,
    {
        let ghost cur = from@.subrange(0, end as int);
        let mut p: usize = end;
        while p > 0 && from[p - 1] != '.'
            invariant
                p <= end <= from@.len(),
                cur == from@.subrange(0, end as int),
                last_dot(cur, end as int) == last_dot(cur, p as int),
            decreases p,
        {
            assert(cur[p - 1] == from@[p - 1]);
            p = p - 1;
        }
        if p == 0 {
            assert(last_dot(cur, 0) is None);
            if k == 1 {
                assert(drop_components(cur, 1) == Some(Seq::<char>::empty()));
                end = 0;
                k = 0;
                assert(from@.subrange(0, 0) =~= Seq::<char>::empty());
            } else {
                return None;
            }
        } else {
            assert(cur[p - 1] == '.');
            assert(last_dot(cur, p as int) == Some(p - 1));
            assert(cur.len() == end);
            assert(cur.subrange(0, p - 1) =~= from@.subrange(0, p - 1));
            end = p - 1;
            k = k - 1;
        }
    }
    let mut out: Vec<char> = Vec::new();
    let mut i: usize = 0;
    while i < end
        invariant
            i <= end <= from@.len(),
            out@ == from@.subrange(0, i as int),
        decreases end - i,
    {
        out.push(from[i]);
        i = i + 1;
        assert(from@.subrange(0, i as int) =~= from@.subrange(0, i - 1).push(from@[i - 1]));
    }
    if end > 0 {
        out.push('.');
    }
    let ghost prefix = from@.subrange(0, end as int);
    push_dotted(&mut out, names);
    assert(drop_components(prefix, 0) == Some(prefix));
    if end == 0 {
        assert(out@ =~= join_dotted(ns));
    } else {
        assert(out@ =~= prefix + seq!['.'] + join_dotted(ns));
    }
    Some(out)
}

/// Whether two character sequences are equal.
pub fn same_chars(a: &Vec<char>, b: &Vec<char>) -> (r: bool)
    ensures
        r == (a@ == b@),
{
    if a.len() != b.len() {
        return false;
    }
    let mut i: usize = 0;
    while i < a.len()
        invariant
            i <= a@.len(),
            a@.len() == b@.len(),
            forall|j: int| 0 <= j < i ==> a@[j] == b@[j],
        decreases a.len() - i,
    {
        if a[i] != b[i] {
            return false;
        }
        i = i + 1;
    }
    assert(a@ =~= b@);
    true
}

} // verus!
