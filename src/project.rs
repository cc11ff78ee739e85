//! The definitions of all files in one arena, the import reachability of each file, and
//! the resolution of every name to the definition it refers to.
use crate::parser::{Definition, Expr, Import, Item, Module, Segment, definition_ok, expr_id, items_ok, parse_module};
use crate::logs::Log;
use crate::paths::{same_chars, target_path, import_target};
use vstd::prelude::*;

verus! {

/// One source file: its text, its path on disk and its dotted module path.
#[derive(Debug)]
pub struct SourceFile {
    pub content: String,
    pub fs_path: String,
    pub dot_path: String,
}

/// An import of a file, with the file it names once located.
#[derive(Debug)]
pub struct FileImport {
    pub import: Import,
    /// No other kind of item comes before it in its file.
    pub is_top: bool,
    pub target: Option<usize>,
}

/// A file whose public definitions a file can see, reached through one of its own imports
/// (`source`, an index into its imports) or being the file itself (`None`).
#[derive(Debug, Clone, Copy)]
pub struct ReachEntry {
    pub file: usize,
    pub source: Option<usize>,
}

/// All definitions of a compilation, in file order then declaration order; the definitions
/// of file `f` are `defs[starts[f]..starts[f + 1]]`.
#[derive(Debug)]
pub struct Project {
    pub codes: Vec<Vec<char>>,
    pub dot_paths: Vec<Vec<char>>,
    pub imports: Vec<Vec<FileImport>>,
    pub defs: Vec<Definition>,
    pub starts: Vec<usize>,
}

/// What indexing finds out about a project.
#[derive(Debug)]
pub struct Index {
    /// For each file, the files it can see, highest priority first.
    pub reach: Vec<Vec<ReachEntry>>,
    /// For each file and each file it can see, whether one of its references resolved there.
    pub used: Vec<Vec<bool>>,
    /// For each definition, the definition its value refers to.
    pub bindings: Vec<Option<usize>>,
    /// For each definition, the first reference that resolved to it.
    pub first_use: Vec<Option<crate::parser::Span>>,
}

impl Project {
    pub open spec fn file_count(&self) -> nat {
        self.codes@.len()
    }

    /// Definition `j` belongs to file `f`.
    pub open spec fn in_file(&self, j: int, f: int) -> bool {
        0 <= f < self.file_count() && self.starts@[f] <= j < self.starts@[f + 1]
    }

    pub open spec fn def_file(&self, j: int) -> int {
        self.defs@[j].name_span.file as int
    }

    /// The layout of the arena, before reachability and resolution.
    pub open spec fn arena_ok(&self) -> bool {
        &&& self.dot_paths@.len() == self.file_count()
        &&& self.imports@.len() == self.file_count()
        &&& self.starts@.len() == self.file_count() + 1
        &&& self.starts@[0] == 0
        &&& self.starts@[self.file_count() as int] == self.defs@.len()
        &&& forall|a: int, b: int| 0 <= a <= b <= self.file_count() ==> #[trigger] self.starts@[a] <= #[trigger] self.starts@[b]
        &&& forall|f: int, j: int| #![trigger self.in_file(j, f)] self.in_file(j, f) ==> self.def_file(j) == f
        &&& forall|j: int| #![trigger self.defs@[j]] 0 <= j < self.defs@.len() ==> {
            &&& 0 <= self.def_file(j) < self.file_count()
            &&& definition_ok(self.codes@[self.def_file(j)]@, self.def_file(j) as usize, self.defs@[j])
        }
        &&& forall|i: int, j: int|
            #![trigger self.defs@[i], self.defs@[j]]
            0 <= i < j < self.defs@.len() ==> expr_id(self.defs@[i].value) < self.defs@[j].id
        &&& forall|i: int, j: int|
            #![trigger self.defs@[i], self.defs@[j]]
            0 <= i < j < self.defs@.len() && self.def_file(i) == self.def_file(j) ==> crate::parser::expr_span(self.defs@[i].value).end
                <= crate::parser::expr_span(self.defs@[j].value).start
                && crate::parser::expr_span(self.defs@[i].value).end <= self.defs@[j].name_span.start
        &&& forall|f: int, k: int|
            #![trigger self.imports@[f]@[k]]
            0 <= f < self.file_count() && 0 <= k < self.imports@[f]@.len()
                ==> (self.imports@[f]@[k].target matches Some(t) ==> t < self.file_count())
                && crate::parser::import_ok(self.codes@[f]@, f as usize, self.imports@[f]@[k].import)
    }

    /// Reachability is laid out: each file sees itself first, then other files, once each.
    pub open spec fn reach_ok(&self, reach: Seq<Vec<ReachEntry>>) -> bool {
        &&& reach.len() == self.file_count()
        &&& forall|f: int| #![trigger reach[f]] 0 <= f < self.file_count() ==> reach_row_ok(self, f, reach[f]@)
    }

    pub open spec fn index_ok(&self, index: Index) -> bool {
        &&& self.reach_ok(index.reach@)
        &&& index.used@.len() == self.file_count()
        &&& forall|f: int| #![trigger index.used@[f]] 0 <= f < self.file_count() ==> index.used@[f]@.len() == index.reach@[f]@.len()
        &&& index.bindings@.len() == self.defs@.len()
        &&& index.first_use@.len() == self.defs@.len()
        &&& forall|j: int| #![trigger index.bindings@[j]] 0 <= j < self.defs@.len() ==> (
            index.bindings@[j] matches Some(t) ==> t < self.defs@.len())
        &&& forall|j: int| #![trigger index.bindings@[j]] 0 <= j < self.defs@.len() ==> binding_ok(self, index.reach@, j, index.bindings@[j])
        &&& forall|t: int| #![trigger index.first_use@[t]] 0 <= t < self.defs@.len() ==> index.first_use@[t] == first_ref(self, index.bindings@, t)
        &&& forall|f: int, k: int| #![trigger index.used@[f]@[k]] 0 <= f < self.file_count() && 0 <= k < index.reach@[f]@.len()
                ==> index.used@[f]@[k] == used_by(self, index.bindings@, f, index.reach@[f]@[k].file as int)
    }
}

/// Whether definition `j` can be seen from a reference with identity `rid` and scope
/// `rscope` in file `f`: before it in the same file, or public in another file, and never
/// the definition whose value holds the reference.
pub open spec fn visible(p: &Project, j: int, f: int, rid: u64, rscope: Seq<u64>) -> bool {
    let d = p.defs@[j];
    ((p.def_file(j) == f && d.id < rid) || (p.def_file(j) != f && d.is_public)) && d.scope@
        != rscope
}

pub open spec fn candidate(p: &Project, j: int, name: Seq<char>, f: int, rid: u64, rscope: Seq<u64>) -> bool {
    0 <= j < p.defs@.len() && p.defs@[j].name@ == name && visible(p, j, f, rid, rscope)
}

/// No candidate is declared in file `g`.
pub open spec fn none_in(p: &Project, g: int, name: Seq<char>, f: int, rid: u64, rscope: Seq<u64>) -> bool {
    forall|j: int| #![trigger p.defs@[j]] p.in_file(j, g) ==> !candidate(p, j, name, f, rid, rscope)
}

/// `j` is the definition that a reference named `name` resolves to: the latest candidate of
/// the first file in `reach` that holds one.
pub open spec fn resolves_to(p: &Project, reach: Seq<ReachEntry>, j: int, name: Seq<char>, f: int, rid: u64, rscope: Seq<u64>) -> bool {
    &&& candidate(p, j, name, f, rid, rscope)
    &&& exists|k: int| #![trigger reach[k]] 0 <= k < reach.len() && reach[k].file == p.def_file(j)
        && forall|k2: int| #![trigger reach[k2]] 0 <= k2 < k ==> none_in(p, reach[k2].file as int, name, f, rid, rscope)
    &&& forall|j2: int| #![trigger p.defs@[j2]] j < j2 && p.in_file(j2, p.def_file(j)) ==> !candidate(p, j2, name, f, rid, rscope)
}

/// No file of `reach` holds a candidate.
pub open spec fn unresolved(p: &Project, reach: Seq<ReachEntry>, name: Seq<char>, f: int, rid: u64, rscope: Seq<u64>) -> bool {
    forall|k: int| #![trigger reach[k]] 0 <= k < reach.len() ==> none_in(p, reach[k].file as int, name, f, rid, rscope)
}

/// Whether two identity sequences are equal.
pub fn same_ids(a: &Vec<u64>, b: &Vec<u64>) -> (r: bool)
    ensures
        r == (a@ == b@),
{
    if a.len() != b.len() {
        return false;
    }
    let mut i: usize = 0;
    while i < a.len()
        invariant
            i <= a@.len(),
            a@.len() == b@.len(),
            forall|j: int| 0 <= j < i ==> a@[j] == b@[j],
        decreases a.len() - i,
    {
        if a[i] != b[i] {
            return false;
        }
        i = i + 1;
    }
    assert(a@ =~= b@);
    true
}

impl Project {
    /// The latest candidate declared in file `g`.
    fn search_file(&self, g: usize, name: &Vec<char>, f: usize, rid: u64, rscope: &Vec<u64>) -> (r: Option<usize>)
        requires
            self.arena_ok(),
            g < self.file_count(),
        ensures
            match r {
                Some(j) => candidate(self, j as int, name@, f as int, rid, rscope@) && self.def_file(j as int) == g
                    && forall|j2: int| #![trigger self.defs@[j2]] j < j2 && self.in_file(j2, g as int) ==> !candidate(self, j2, name@, f as int, rid, rscope@),
                None => none_in(self, g as int, name@, f as int, rid, rscope@),
            },
    {
        // reading the length bounds the file index below it, for `f + 1`
        let start_count = self.starts.len();
        let lo = self.starts[g];
        let mut j = self.starts[g + 1];
        assert(self.starts@[g as int] <= self.starts@[g + 1]);
        while j > lo
            invariant
                lo == self.starts@[g as int],
                lo <= j <= self.starts@[g + 1],
                g < self.file_count(),
                self.starts@.len() == self.file_count() + 1,
                self.starts@[self.file_count() as int] == self.defs@.len(),
                forall|f2: int, j2: int| #![trigger self.in_file(j2, f2)] self.in_file(j2, f2) ==> self.def_file(j2) == f2,
                forall|a: int, b: int| 0 <= a <= b <= self.file_count() ==> #[trigger] self.starts@[a] <= #[trigger] self.starts@[b],
                forall|j2: int| #![trigger self.defs@[j2]] j <= j2 && self.in_file(j2, g as int) ==> !candidate(self, j2, name@, f as int, rid, rscope@),
            decreases j,
        {
            j = j - 1;
            assert(self.in_file(j as int, g as int));
            assert(self.starts@[g + 1] <= self.starts@[self.file_count() as int]);
            let d = &self.defs[j];
            let dfile = d.name_span.file;
            let is_visible = ((dfile == f && d.id < rid) || (dfile != f && d.is_public))
                && !same_ids(&d.scope, rscope);
            if is_visible && same_chars(&d.name, name) {
                return Some(j);
            }
        }
        None
    }

    /// Finds the definition that a reference named `name`, with identity `rid` and scope
    /// `rscope`, in file `f`, resolves to.
    pub fn search(&self, reach: &Vec<ReachEntry>, name: &Vec<char>, f: usize, rid: u64, rscope: &Vec<u64>) -> (r: Option<usize>)
        requires
            self.arena_ok(),
            forall|k: int| #![trigger reach@[k]] 0 <= k < reach@.len() ==> reach@[k].file < self.file_count(),
        ensures
            match r {
                Some(j) => resolves_to(self, reach@, j as int, name@, f as int, rid, rscope@),
                None => unresolved(self, reach@, name@, f as int, rid, rscope@),
            },
    {
        let mut k: usize = 0;
        while k < reach.len()
            invariant
                self.arena_ok(),
                forall|k: int| #![trigger reach@[k]] 0 <= k < reach@.len() ==> reach@[k].file < self.file_count(),
                k <= reach@.len(),
                forall|k2: int| #![trigger reach@[k2]] 0 <= k2 < k ==> none_in(self, reach@[k2].file as int, name@, f as int, rid, rscope@),
            decreases reach.len() - k,
        {
            let g = reach[k].file;
            assert(reach@[k as int].file < self.file_count());
            // reading the length bounds the file index below it, for `f + 1`
            let start_count = self.starts.len();
            match self.search_file(g, name, f, rid, rscope) {
                Some(j) => {
                    return Some(j);
                },
                None => {},
            }
            k = k + 1;
        }
        None
    }
}

/// How many files are not yet visited.
pub open spec fn unvisited(v: Seq<bool>) -> nat
    decreases v.len(),
{
    if v.len() == 0 {
        0
    } else {
        unvisited(v.drop_last()) + if v.last() {
            0nat
        } else {
            1nat
        }
    }
}

proof fn lemma_visit(v: Seq<bool>, i: int)
    requires
        0 <= i < v.len(),
        !v[i],
    ensures
        unvisited(v.update(i, true)) + 1 == unvisited(v),
    decreases v.len(),
{
    if i < v.len() - 1 {
        lemma_visit(v.drop_last(), i);
        assert(v.update(i, true).drop_last() =~= v.drop_last().update(i, true));
    } else {
        assert(v.update(i, true).drop_last() =~= v.drop_last());
    }
}

/// The entries list each file once, each one visited and in range.
pub open spec fn entries_ok(entries: Seq<ReachEntry>, visited: Seq<bool>, n: nat, sources: nat) -> bool {
    &&& visited.len() == n
    &&& forall|k: int| #![trigger entries[k]] 0 <= k < entries.len() ==> {
        &&& entries[k].file < n
        &&& visited[entries[k].file as int]
        &&& (entries[k].source matches Some(i) ==> i < sources)
    }
    &&& forall|k1: int, k2: int| #![trigger entries[k1], entries[k2]] 0 <= k1 < k2 < entries.len() ==> entries[k1].file != entries[k2].file
}

pub open spec fn imports_in_range(imports: Seq<Vec<FileImport>>, n: nat) -> bool {
    &&& imports.len() == n
    &&& forall|f: int, k: int|
        #![trigger imports[f]@[k]]
        0 <= f < n && 0 <= k < imports[f]@.len() ==> (imports[f]@[k].target matches Some(t) ==> t < n)
}

/// What file `f` sees: exactly the depth-first expansion `reach_row`, that is itself first,
/// then other files, each once, those reached through a later declared import first; every file it imports;
/// every file that a listed file other than itself imports publicly; and no file that its
/// imports, followed by public imports, do not reach.
pub open spec fn reach_row_ok(p: &Project, f: int, row: Seq<ReachEntry>) -> bool {
    &&& row.len() > 0
    &&& row[0].file == f
    &&& row[0].source is None
    &&& entries_ok(row, Seq::new(p.file_count(), |x: int| true), p.file_count(), p.imports@[f]@.len() as nat)
    &&& forall|k: int| #![trigger p.imports@[f]@[k]] 0 <= k < p.imports@[f]@.len()
        ==> (p.imports@[f]@[k].target matches Some(t) ==> lists(row, t as int))
    &&& forall|e: int, k: int| #![trigger row[e], p.imports@[row[e].file as int]@[k]]
        0 <= e < row.len() && row[e].file != f && 0 <= k < p.imports@[row[e].file as int]@.len()
            && p.imports@[row[e].file as int]@[k].import.is_public
            ==> (p.imports@[row[e].file as int]@[k].target matches Some(t) ==> lists(row, t as int))
    &&& forall|e: int| #![trigger row[e]] 0 <= e < row.len() && row[e].file != f ==> exists|k: nat| reaches(p.imports@, f, row[e].file as int, k)
    &&& forall|e: int| #![trigger row[e]] 1 <= e < row.len() ==> row[e].source is Some
    &&& forall|e1: int, e2: int| #![trigger row[e1], row[e2]] 1 <= e1 < e2 < row.len() ==> row[e1].source->Some_0 >= row[e2].source->Some_0
    &&& row == reach_row(p.imports@, p.file_count(), f)
}

/// File `g` is reached from file `f` through one of `f`'s imports, then at most `k` public
/// imports.
pub open spec fn reaches(imports: Seq<Vec<FileImport>>, f: int, g: int, k: nat) -> bool
    decreases k,
{
    if k == 0 {
        exists|i: int| 0 <= i < imports[f]@.len() && #[trigger] imports[f]@[i].target == Some(g as usize)
    } else {
        reaches(imports, f, g, (k - 1) as nat) || exists|h: int|
            #[trigger] public_import(imports, h, g) && reaches(imports, f, h, (k - 1) as nat)
    }
}

/// File `h` imports file `g` publicly.
pub open spec fn public_import(imports: Seq<Vec<FileImport>>, h: int, g: int) -> bool {
    exists|i: int| 0 <= i < imports[h]@.len() && (#[trigger] imports[h]@[i]).import.is_public
        && imports[h]@[i].target == Some(g as usize)
}

/// Every visited file but `f` is reached from `f`.
pub open spec fn sound(imports: Seq<Vec<FileImport>>, f: int, visited: Seq<bool>) -> bool {
    forall|x: int| 0 <= x < visited.len() && #[trigger] visited[x] && x != f ==> exists|k: nat| reaches(imports, f, x, k)
}

/// Some entry lists file `x`.
pub open spec fn lists(entries: Seq<ReachEntry>, x: int) -> bool {
    exists|k: int| 0 <= k < entries.len() && #[trigger] entries[k].file == x
}

/// Every visited file is listed.
pub open spec fn covers(entries: Seq<ReachEntry>, visited: Seq<bool>) -> bool {
    forall|x: int| 0 <= x < visited.len() && #[trigger] visited[x] ==> lists(entries, x)
}

pub open spec fn monotone(a: Seq<bool>, b: Seq<bool>) -> bool {
    a.len() == b.len() && forall|x: int| 0 <= x < a.len() && #[trigger] a[x] ==> b[x]
}

/// The public imports of file `x` name visited files.
pub open spec fn closed_at(imports: Seq<Vec<FileImport>>, x: int, visited: Seq<bool>) -> bool {
    forall|k: int| #![trigger imports[x]@[k]] 0 <= k < imports[x]@.len() && imports[x]@[k].import.is_public
        ==> (imports[x]@[k].target matches Some(t) ==> visited[t as int])
}

/// Every file visited in `b` but not in `a` has the public imports of its own visited.
pub open spec fn closed_new(imports: Seq<Vec<FileImport>>, a: Seq<bool>, b: Seq<bool>) -> bool {
    forall|x: int| 0 <= x < b.len() && #[trigger] b[x] && !a[x] ==> closed_at(imports, x, b)
}

proof fn lemma_closed_at_monotone(imports: Seq<Vec<FileImport>>, x: int, a: Seq<bool>, b: Seq<bool>)
    requires
        imports_in_range(imports, a.len()),
        0 <= x < a.len(),
        closed_at(imports, x, a),
        monotone(a, b),
    ensures
        closed_at(imports, x, b),
{
    assert forall|k: int| #![trigger imports[x]@[k]] 0 <= k < imports[x]@.len() && imports[x]@[k].import.is_public
        implies (imports[x]@[k].target matches Some(t) ==> b[t as int]) by {
        if imports[x]@[k].target is Some {
            let t = imports[x]@[k].target->Some_0;
            assert(a[t as int]);
        }
    }
}

/// Depth first: adds file `g` with `source`, then, for each of its imports from the last
/// declared to the first that is public, the files it reaches; a visited file is skipped.
pub open spec fn dfs_expand(imports: Seq<Vec<FileImport>>, visited: Seq<bool>, entries: Seq<ReachEntry>, g: int, source: Option<usize>) -> (Seq<bool>, Seq<ReachEntry>)
    decreases unvisited(visited), 0int,
{
    if !(0 <= g < visited.len()) || visited[g] {
        (visited, entries)
    } else if unvisited(visited.update(g, true)) < unvisited(visited) {
        dfs_children(imports, visited.update(g, true), entries.push(ReachEntry { file: g as usize, source }), g, imports[g]@.len() as int, source)
    } else {
        (visited, entries)
    }
}

/// The public imports of `g` below index `i`, from the last to the first, expanded depth first.
pub open spec fn dfs_children(imports: Seq<Vec<FileImport>>, visited: Seq<bool>, entries: Seq<ReachEntry>, g: int, i: int, source: Option<usize>) -> (Seq<bool>, Seq<ReachEntry>)
    decreases unvisited(visited), i,
{
    if i <= 0 {
        (visited, entries)
    } else {
        let imp = imports[g]@[i - 1];
        let after = if imp.import.is_public && imp.target is Some {
            dfs_expand(imports, visited, entries, imp.target->Some_0 as int, source)
        } else {
            (visited, entries)
        };
        if unvisited(after.0) <= unvisited(visited) {
            dfs_children(imports, after.0, after.1, g, i - 1, source)
        } else {
            after
        }
    }
}

/// The imports of `f` below index `i`, from the last to the first, each expanded depth first
/// with itself as source.
pub open spec fn dfs_roots(imports: Seq<Vec<FileImport>>, visited: Seq<bool>, entries: Seq<ReachEntry>, f: int, i: int) -> (Seq<bool>, Seq<ReachEntry>)
    decreases i,
{
    if i <= 0 {
        (visited, entries)
    } else {
        let imp = imports[f]@[i - 1];
        let after = if imp.target is Some {
            dfs_expand(imports, visited, entries, imp.target->Some_0 as int, Some((i - 1) as usize))
        } else {
            (visited, entries)
        };
        dfs_roots(imports, after.0, after.1, f, i - 1)
    }
}

/// The files that file `f` sees, in order: itself, then the depth-first expansion of its
/// imports from the last declared to the first.
pub open spec fn reach_row(imports: Seq<Vec<FileImport>>, n: nat, f: int) -> Seq<ReachEntry> {
    dfs_roots(imports, only(n, f), seq![ReachEntry { file: f as usize, source: None }], f, imports[f]@.len() as int).1
}

/// `n` flags, only the one of `f` set.
pub open spec fn only(n: nat, f: int) -> Seq<bool> {
    Seq::new(n, |x: int| x == f)
}

/// Adds file `g` and, depth first, the files that its public imports reach, unless visited.
fn expand(
    imports: &Vec<Vec<FileImport>>,
    entries: &mut Vec<ReachEntry>,
    visited: &mut Vec<bool>,
    g: usize,
    source: Option<usize>,
    sources: Ghost<nat>,
    root: Ghost<int>,
    depth: Ghost<nat>,
)
    requires
        imports_in_range(imports@, old(visited)@.len()),
        g < old(visited)@.len(),
        entries_ok(old(entries)@, old(visited)@, old(visited)@.len(), sources@),
        covers(old(entries)@, old(visited)@),
        sound(imports@, root@, old(visited)@),
        g == root@ || reaches(imports@, root@, g as int, depth@),
        source matches Some(i) ==> i < sources@,
    ensures
        entries_ok(final(entries)@, final(visited)@, old(visited)@.len(), sources@),
        covers(final(entries)@, final(visited)@),
        sound(imports@, root@, final(visited)@),
        monotone(old(visited)@, final(visited)@),
        final(visited)@[g as int],
        closed_new(imports@, old(visited)@, final(visited)@),
        final(entries)@.len() >= old(entries)@.len(),
        final(entries)@.take(old(entries)@.len() as int) == old(entries)@,
        forall|e: int| #![trigger final(entries)@[e]] old(entries)@.len() <= e < final(entries)@.len() ==> final(entries)@[e].source == source,
        unvisited(final(visited)@) <= unvisited(old(visited)@),
        (final(visited)@, final(entries)@) == dfs_expand(imports@, old(visited)@, old(entries)@, g as int, source),
    decreases unvisited(old(visited)@),
{
    if visited[g] {
        return;
    }
    let ghost n = visited@.len();
    let ghost v0 = visited@;
    let ghost before = entries@;
    entries.push(ReachEntry { file: g, source });
    proof {
        lemma_visit(visited@, g as int);
    }
    visited.set(g, true);
    let ghost after_push = entries@;
    assert(entries_ok(entries@, visited@, n, sources@)) by {
        assert forall|k: int| #![trigger entries@[k]] 0 <= k < entries@.len() implies visited@[entries@[k].file as int] by {
            if k < before.len() {
                assert(entries@[k] == before[k]);
            }
        }
        assert forall|k1: int, k2: int| #![trigger entries@[k1], entries@[k2]] 0 <= k1 < k2 < entries@.len() implies entries@[k1].file != entries@[k2].file by {
            if k2 == before.len() {
                assert(old(visited)@[before[k1].file as int]);
            } else {
                assert(entries@[k1] == before[k1]);
                assert(entries@[k2] == before[k2]);
            }
        }
    }
    assert(sound(imports@, root@, visited@)) by {
        assert forall|x: int| 0 <= x < visited@.len() && #[trigger] visited@[x] && x != root@ implies exists|k: nat| reaches(imports@, root@, x, k) by {
            if x == g {
                assert(reaches(imports@, root@, x, depth@));
            } else {
                assert(v0[x]);
            }
        }
    }
    assert(covers(entries@, visited@)) by {
        assert forall|x: int| 0 <= x < visited@.len() && #[trigger] visited@[x] implies lists(entries@, x) by {
            if x == g {
                assert(entries@[before.len() as int].file == x);
            } else {
                assert(v0[x]);
                let k = choose|k: int| 0 <= k < before.len() && #[trigger] before[k].file == x;
                assert(entries@[k] == before[k]);
            }
        }
    }
    let mut i = imports[g].len();
    assert(visited@ == v0.update(g as int, true));
    assert(entries@ == before.push(ReachEntry { file: g, source }));
    while i > 0
        invariant
            imports_in_range(imports@, n),
            g < n,
            n == old(visited)@.len(),
            v0 == old(visited)@,
            !v0[g as int],
            i <= imports@[g as int]@.len(),
            entries_ok(entries@, visited@, n, sources@),
            covers(entries@, visited@),
            sound(imports@, root@, visited@),
            g == root@ || reaches(imports@, root@, g as int, depth@),
            monotone(v0, visited@),
            visited@[g as int],
            forall|x: int| 0 <= x < n && #[trigger] visited@[x] && !v0[x] && x != g ==> closed_at(imports@, x, visited@),
            forall|k: int| #![trigger imports@[g as int]@[k]] i <= k < imports@[g as int]@.len() && imports@[g as int]@[k].import.is_public
                ==> (imports@[g as int]@[k].target matches Some(t) ==> visited@[t as int]),
            source matches Some(i) ==> i < sources@,
            entries@.len() > old(entries)@.len(),
            entries@.take(old(entries)@.len() as int) == old(entries)@,
            forall|e: int| #![trigger entries@[e]] old(entries)@.len() <= e < entries@.len() ==> entries@[e].source == source,
            unvisited(visited@) < unvisited(old(visited)@),
            dfs_expand(imports@, v0, old(entries)@, g as int, source) == dfs_children(imports@, visited@, entries@, g as int, i as int, source),
        decreases i,
    {
        i = i - 1;
        let imp = &imports[g][i];
        let ghost before_step = visited@;
        let ghost before_entries = entries@;
        if imp.import.is_public {
            match imp.target {
                Some(t) => {
                    let ghost mid = entries@;
                    let ghost vm = visited@;
                    proof {
                        if t as int != root@ {
                            if g as int == root@ {
                                assert(imports@[g as int]@[i as int].target == Some(t));
                                assert(reaches(imports@, root@, t as int, 0));
                            } else {
                                let k1: nat = depth@ + 1;
                                assert((k1 - 1) as nat == depth@);
                                assert(reaches(imports@, root@, g as int, (k1 - 1) as nat));
                                assert(imports@[g as int]@[i as int].import.is_public && imports@[g as int]@[i as int].target == Some(t));
                                assert(public_import(imports@, g as int, t as int));
                                assert(reaches(imports@, root@, t as int, k1));
                            }
                        }
                    }
                    let ghost next_depth: nat = if g as int == root@ { 0 } else { depth@ + 1 };
                    expand(imports, entries, visited, t, source, sources, root, Ghost(next_depth));
                    assert(entries@.take(old(entries)@.len() as int) =~= mid.take(old(entries)@.len() as int));
                    proof {
                        assert forall|e: int| #![trigger entries@[e]] old(entries)@.len() <= e < entries@.len() implies entries@[e].source == source by {
                            if e < mid.len() {
                                assert(entries@.take(mid.len() as int)[e] == mid[e]);
                            }
                        }
                        assert forall|x: int| 0 <= x < n && #[trigger] visited@[x] && !v0[x] && x != g implies closed_at(imports@, x, visited@) by {
                            if vm[x] {
                                lemma_closed_at_monotone(imports@, x, vm, visited@);
                            }
                        }
                        assert forall|k: int| #![trigger imports@[g as int]@[k]] i <= k < imports@[g as int]@.len() && imports@[g as int]@[k].import.is_public
                            implies (imports@[g as int]@[k].target matches Some(t2) ==> visited@[t2 as int]) by {
                            if k > i && imports@[g as int]@[k].target is Some {
                                let t2 = imports@[g as int]@[k].target->Some_0;
                                assert(vm[t2 as int]);
                            }
                        }
                    }
                },
                None => {},
            }
        }
    }
    proof {
        assert(closed_at(imports@, g as int, visited@));
        assert(closed_new(imports@, v0, visited@));
    }
}

impl Project {
    /// The files that file `f` sees: itself, then, for each of its imports from the last
    /// declared to the first, the imported file and, depth first, the files reached from it
    /// through public imports only. A file already listed is not listed again.
    #[verifier::rlimit(100)]
    pub fn reach_of(&self, f: usize) -> (entries: Vec<ReachEntry>)
        requires
            self.arena_ok(),
            f < self.file_count(),
        ensures
            reach_row_ok(self, f as int, entries@),
    {
        let n = self.codes.len();
        let mut visited: Vec<bool> = Vec::new();
        let mut x: usize = 0;
        while x < n
            invariant
                x <= n,
                visited@.len() == x,
                forall|y: int| 0 <= y < x ==> !visited@[y],
            decreases n - x,
        {
            visited.push(false);
            x = x + 1;
        }
        let mut entries: Vec<ReachEntry> = Vec::new();
        entries.push(ReachEntry { file: f, source: None });
        visited.set(f, true);
        let ghost v_start = visited@;
        assert(visited@ =~= only(n as nat, f as int));
        assert(entries@ =~= seq![ReachEntry { file: f, source: None }]);
        assert(reach_row(self.imports@, n as nat, f as int) == dfs_roots(self.imports@, visited@, entries@, f as int, self.imports@[f as int]@.len() as int).1);
        let ghost sources = self.imports@[f as int]@.len() as nat;
        assert(covers(entries@, visited@)) by {
            assert forall|y: int| 0 <= y < visited@.len() && #[trigger] visited@[y] implies lists(entries@, y) by {
                assert(y == f);
                assert(entries@[0].file == y);
            }
        }
        let mut i = self.imports[f].len();
        while i > 0
            invariant
                self.arena_ok(),
                n == self.file_count(),
                f < n,
                sources == self.imports@[f as int]@.len(),
                i <= sources,
                imports_in_range(self.imports@, n as nat),
                entries_ok(entries@, visited@, n as nat, sources),
                covers(entries@, visited@),
                sound(self.imports@, f as int, visited@),
                monotone(v_start, visited@),
                closed_new(self.imports@, v_start, visited@),
                v_start.len() == n,
                forall|y: int| 0 <= y < n && #[trigger] v_start[y] ==> y == f,
                entries@.len() > 0,
                entries@[0] == (ReachEntry { file: f, source: None }),
                forall|e: int| #![trigger entries@[e]] 1 <= e < entries@.len() ==> entries@[e].source is Some && entries@[e].source->Some_0 >= i,
                forall|e1: int, e2: int| #![trigger entries@[e1], entries@[e2]] 1 <= e1 < e2 < entries@.len() ==> entries@[e1].source->Some_0 >= entries@[e2].source->Some_0,
                forall|k: int| #![trigger self.imports@[f as int]@[k]] i <= k < sources
                    ==> (self.imports@[f as int]@[k].target matches Some(t) ==> visited@[t as int]),
                reach_row(self.imports@, n as nat, f as int) == dfs_roots(self.imports@, visited@, entries@, f as int, i as int).1,
            decreases i,
        {
            i = i - 1;
            match self.imports[f][i].target {
                Some(t) => {
                    let ghost e0 = entries@[0];
                    let ghost vm = visited@;
                    proof {
                        assert(self.imports@[f as int]@[i as int].target == Some(t));
                        assert(reaches(self.imports@, f as int, t as int, 0));
                    }
                    let ghost before_entries = entries@;
                    expand(&self.imports, &mut entries, &mut visited, t, Some(i), Ghost(sources), Ghost(f as int), Ghost(0));
                    assert(entries@.take(1)[0] == e0);
                    proof {
                        assert forall|e: int| #![trigger entries@[e]] 1 <= e < before_entries.len() implies entries@[e] == before_entries[e] by {
                            assert(entries@.take(before_entries.len() as int)[e] == before_entries[e]);
                        }
                    }
                    proof {
                        assert forall|y: int| 0 <= y < n && #[trigger] visited@[y] && !v_start[y] implies closed_at(self.imports@, y, visited@) by {
                            if vm[y] {
                                lemma_closed_at_monotone(self.imports@, y, vm, visited@);
                            }
                        }
                        assert forall|k: int| #![trigger self.imports@[f as int]@[k]] i <= k < sources
                            implies (self.imports@[f as int]@[k].target matches Some(t2) ==> visited@[t2 as int]) by {
                            if k > i && self.imports@[f as int]@[k].target is Some {
                                let t2 = self.imports@[f as int]@[k].target->Some_0;
                                assert(vm[t2 as int]);
                            }
                        }
                    }
                },
                None => {},
            }
        }
        proof {
            let all = Seq::new(n as nat, |x: int| true);
            assert forall|k: int| #![trigger entries@[k]] 0 <= k < entries@.len() implies all[entries@[k].file as int] by {}
            assert forall|e: int| #![trigger entries@[e]] 0 <= e < entries@.len() && entries@[e].file != f implies exists|k: nat| reaches(self.imports@, f as int, entries@[e].file as int, k) by {
                assert(visited@[entries@[e].file as int]);
            }
            assert forall|e: int, k: int| #![trigger entries@[e], self.imports@[entries@[e].file as int]@[k]]
                0 <= e < entries@.len() && entries@[e].file != f && 0 <= k < self.imports@[entries@[e].file as int]@.len()
                && self.imports@[entries@[e].file as int]@[k].import.is_public
                implies (self.imports@[entries@[e].file as int]@[k].target matches Some(t) ==> lists(entries@, t as int)) by {
                let g = entries@[e].file as int;
                assert(visited@[g]);
                assert(!v_start[g]);
                assert(closed_at(self.imports@, g, visited@));
                if self.imports@[g]@[k].target is Some {
                    let t = self.imports@[g]@[k].target->Some_0;
                    assert(visited@[t as int]);
                }
            }
            assert forall|k: int| #![trigger self.imports@[f as int]@[k]] 0 <= k < sources
                implies (self.imports@[f as int]@[k].target matches Some(t) ==> lists(entries@, t as int)) by {
                if self.imports@[f as int]@[k].target is Some {
                    let t = self.imports@[f as int]@[k].target->Some_0;
                    assert(visited@[t as int]);
                }
            }
        }
        entries
    }

    /// The files that each file sees (see `reach_of`).
    pub fn consolidate(&self) -> (reach: Vec<Vec<ReachEntry>>)
        requires
            self.arena_ok(),
        ensures
            self.reach_ok(reach@),
    {
        let n = self.codes.len();
        let mut reach: Vec<Vec<ReachEntry>> = Vec::new();
        let mut f: usize = 0;
        while f < n
            invariant
                self.arena_ok(),
                n == self.file_count(),
                f <= n,
                reach@.len() == f,
                forall|f2: int| #![trigger reach@[f2]] 0 <= f2 < f ==> reach_row_ok(self, f2, reach@[f2]@),
            decreases n - f,
        {
            let row = self.reach_of(f);
            reach.push(row);
            f = f + 1;
        }
        reach
    }
}

fn copy_flags(v: &Vec<bool>) -> (r: Vec<bool>)
    ensures
        r@ == v@,
{
    let mut r: Vec<bool> = Vec::new();
    let mut i: usize = 0;
    while i < v.len()
        invariant
            i <= v@.len(),
            r@ == v@.take(i as int),
        decreases v.len() - i,
    {
        r.push(v[i]);
        i = i + 1;
        assert(v@.take(i as int) =~= v@.take(i - 1).push(v@[i - 1]));
    }
    assert(v@.take(i as int) =~= v@);
    r
}

/// Where the reference in the value of definition `j` stands.
pub open spec fn ref_span(p: &Project, j: int) -> crate::parser::Span {
    crate::parser::expr_span(p.defs@[j].value)
}

/// The span of the first reference, among the first `bindings.len()` definitions, that
/// resolved to `t`.
pub open spec fn first_ref(p: &Project, bindings: Seq<Option<usize>>, t: int) -> Option<crate::parser::Span>
    decreases bindings.len(),
{
    if bindings.len() == 0 {
        None
    } else {
        match first_ref(p, bindings.drop_last(), t) {
            Some(s) => Some(s),
            None => if bindings.last() == Some(t as usize) {
                Some(ref_span(p, bindings.len() - 1))
            } else {
                None
            },
        }
    }
}

/// Some reference of file `f` resolved to a definition of file `g`.
pub open spec fn used_by(p: &Project, bindings: Seq<Option<usize>>, f: int, g: int) -> bool
    decreases bindings.len(),
{
    if bindings.len() == 0 {
        false
    } else {
        used_by(p, bindings.drop_last(), f, g) || (p.def_file(bindings.len() - 1) == f
            && (bindings.last() matches Some(t) && p.def_file(t as int) == g))
    }
}

/// What the reference of definition `j`, if any, resolves to.
pub open spec fn binding_ok(p: &Project, reach: Seq<Vec<ReachEntry>>, j: int, b: Option<usize>) -> bool {
    match p.defs@[j].value {
        Expr::Reference(r) => match b {
            Some(t) => resolves_to(p, reach[p.def_file(j)]@, t as int, r.name@, p.def_file(j), r.id, r.scope@),
            None => unresolved(p, reach[p.def_file(j)]@, r.name@, p.def_file(j), r.id, r.scope@),
        },
        Expr::Literal(_) => b is None,
    }
}

impl Project {
    /// Resolves the reference of every definition, in order, and records for each definition
    /// its first use and for each file which reachable files it used.
    pub fn resolve(&self, reach: Vec<Vec<ReachEntry>>) -> (index: Index)
        requires
            self.arena_ok(),
            self.reach_ok(reach@),
        ensures
            self.index_ok(index),
            index.reach@ == reach@,
    {
        let n = self.defs.len();
        let nfiles = self.codes.len();
        let mut used: Vec<Vec<bool>> = Vec::new();
        let mut f: usize = 0;
        while f < nfiles
            invariant
                nfiles == self.file_count(),
                reach@.len() == nfiles,
                f <= nfiles,
                used@.len() == f,
                forall|f2: int, k: int| #![trigger used@[f2]@[k]] 0 <= f2 < f && 0 <= k < used@[f2]@.len() ==> !used@[f2]@[k],
                forall|f2: int| #![trigger used@[f2]] 0 <= f2 < f ==> used@[f2]@.len() == reach@[f2]@.len(),
            decreases nfiles - f,
        {
            let mut row: Vec<bool> = Vec::new();
            let mut k: usize = 0;
            while k < reach[f].len()
                invariant
                    f < reach@.len(),
                    k <= reach@[f as int]@.len(),
                    row@.len() == k,
                    forall|k2: int| 0 <= k2 < k ==> !row@[k2],
                decreases reach@[f as int]@.len() - k,
            {
                row.push(false);
                k = k + 1;
            }
            used.push(row);
            f = f + 1;
        }
        let mut first_use: Vec<Option<crate::parser::Span>> = Vec::new();
        let mut t: usize = 0;
        while t < n
            invariant
                n == self.defs@.len(),
                t <= n,
                first_use@.len() == t,
                forall|t2: int| 0 <= t2 < t ==> first_use@[t2] is None,
            decreases n - t,
        {
            first_use.push(None);
            t = t + 1;
        }
        let mut bindings: Vec<Option<usize>> = Vec::new();
        let mut j: usize = 0;
        while j < n
            invariant
                self.arena_ok(),
                self.reach_ok(reach@),
                n == self.defs@.len(),
                nfiles == self.file_count(),
                j <= n,
                bindings@.len() == j,
                first_use@.len() == n,
                used@.len() == nfiles,
                forall|f2: int| #![trigger used@[f2]] 0 <= f2 < nfiles ==> used@[f2]@.len() == reach@[f2]@.len(),
                forall|j2: int| #![trigger bindings@[j2]] 0 <= j2 < j ==> binding_ok(self, reach@, j2, bindings@[j2]),
                forall|j2: int| #![trigger bindings@[j2]] 0 <= j2 < j ==> (bindings@[j2] matches Some(x) ==> x < n),
                forall|t2: int| #![trigger first_use@[t2]] 0 <= t2 < n ==> first_use@[t2] == first_ref(self, bindings@, t2),
                forall|f2: int, k: int| #![trigger used@[f2]@[k]] 0 <= f2 < nfiles && 0 <= k < reach@[f2]@.len()
                    ==> used@[f2]@[k] == used_by(self, bindings@, f2, reach@[f2]@[k].file as int),
            decreases n - j,
        {
            let ghost old_bindings = bindings@;
            let ghost old_first = first_use@;
            let ghost old_used = used@;
            assert(self.defs@[j as int] == self.defs@[j as int]);
            let f = self.defs[j].name_span.file;
            let b = match &self.defs[j].value {
                Expr::Reference(r) => {
                    let row = &reach[f];
                    assert(reach@[f as int]@ == row@);
                    assert forall|k: int| #![trigger row@[k]] 0 <= k < row@.len() implies row@[k].file < self.file_count() by {
                        assert(reach@[f as int]@[k] == row@[k]);
                    }
                    self.search(row, &r.name, f, r.id, &r.scope)
                },
                Expr::Literal(_) => None,
            };
            bindings.push(b);
            assert(bindings@.drop_last() =~= old_bindings);
            match b {
                Some(target) => {
                    let span = crate::parser::expr_span_of(&self.defs[j].value);
                    if first_use[target].is_none() {
                        first_use.set(target, Some(span));
                    }
                    let g = self.defs[target].name_span.file;
                    let row_len = reach[f].len();
                    let mut k: usize = 0;
                    while k < row_len
                        invariant
                            f < nfiles,
                            reach@.len() == nfiles,
                            used@.len() == nfiles,
                            row_len == reach@[f as int]@.len(),
                            forall|f2: int| #![trigger used@[f2]] 0 <= f2 < nfiles ==> used@[f2]@.len() == reach@[f2]@.len(),
                            k <= row_len,
                            forall|f2: int, k2: int| #![trigger used@[f2]@[k2]] 0 <= f2 < nfiles && 0 <= k2 < reach@[f2]@.len()
                                ==> used@[f2]@[k2] == (old_used[f2]@[k2] || (f2 == f && k2 < k && reach@[f2]@[k2].file == g)),
                        decreases row_len - k,
                    {
                        if reach[f][k].file == g {
                            let mut row = copy_flags(&used[f]);
                            row.set(k, true);
                            used.set(f, row);
                        }
                        k = k + 1;
                    }
                },
                None => {},
            }
            j = j + 1;
            proof {
                assert forall|t2: int| #![trigger first_use@[t2]] 0 <= t2 < n implies first_use@[t2] == first_ref(self, bindings@, t2) by {
                    assert(first_ref(self, bindings@.drop_last(), t2) == old_first[t2]);
                }
                assert forall|f2: int, k2: int| #![trigger used@[f2]@[k2]] 0 <= f2 < nfiles && 0 <= k2 < reach@[f2]@.len()
                    implies used@[f2]@[k2] == used_by(self, bindings@, f2, reach@[f2]@[k2].file as int) by {
                    assert(used_by(self, bindings@.drop_last(), f2, reach@[f2]@[k2].file as int) == old_used[f2]@[k2]);
                }
            }
        }
        Index { reach, used, bindings, first_use }
    }
}

/// The number of characters of all files.
pub open spec fn total_chars(files: Seq<SourceFile>) -> int
    decreases files.len(),
{
    if files.len() == 0 {
        0
    } else {
        total_chars(files.drop_last()) + files.last().content@.len()
    }
}

proof fn lemma_failing_step(files: Seq<SourceFile>, f: int)
    requires
        0 <= f < files.len(),
    ensures
        failing_files(files.take(f + 1)) == failing_files(files.take(f)) + if crate::grammar::module_outcome(files[f].content@, 0) is Err {
            seq![f]
        } else {
            Seq::empty()
        },
        forall|i: int| 0 <= i < failing_files(files.take(f)).len() ==> 0 <= #[trigger] failing_files(files.take(f))[i] < f,
{
    assert(files.take(f + 1).drop_last() =~= files.take(f));
    lemma_failing_range(files.take(f));
}

proof fn lemma_failing_range(files: Seq<SourceFile>)
    ensures
        forall|i: int| 0 <= i < failing_files(files).len() ==> 0 <= #[trigger] failing_files(files)[i] < files.len(),
    decreases files.len(),
{
    if files.len() > 0 {
        lemma_failing_range(files.drop_last());
        let prev = failing_files(files.drop_last());
        assert forall|i: int| 0 <= i < failing_files(files).len() implies 0 <= #[trigger] failing_files(files)[i] < files.len() by {
            if i < prev.len() {
                assert(failing_files(files)[i] == prev[i]);
            }
        }
    }
}

proof fn lemma_syntax_step(files: Seq<SourceFile>, f: int, before: Seq<Log>, after: Seq<Log>)
    requires
        0 <= f < files.len(),
        syntax_logs(files.take(f), before),
        failing_files(files.take(f)).len() == 0 <==> forall|g: int| 0 <= g < f ==> crate::grammar::module_outcome(#[trigger] files[g].content@, 0) is Ok,
        crate::grammar::module_outcome(files[f].content@, 0) is Err ==> after.len() == before.len() + 1 && after.drop_last() == before
            && crate::messages::syntax_log(after.last(), files[f], crate::grammar::module_outcome(files[f].content@, 0)->Err_0),
        crate::grammar::module_outcome(files[f].content@, 0) is Ok ==> after == before,
    ensures
        syntax_logs(files.take(f + 1), after),
        failing_files(files.take(f + 1)).len() == 0 <==> forall|g: int| 0 <= g < f + 1 ==> crate::grammar::module_outcome(#[trigger] files[g].content@, 0) is Ok,
{
    lemma_failing_step(files, f);
    let fl = failing_files(files.take(f + 1));
    let fb = failing_files(files.take(f));
    assert(files.take(f + 1)[f] == files[f]);
    assert forall|i: int| #![trigger after[i]] 0 <= i < after.len() implies crate::messages::syntax_log(
        after[i],
        files.take(f + 1)[fl[i]],
        crate::grammar::module_outcome(files.take(f + 1)[fl[i]].content@, 0)->Err_0,
    ) by {
        if i < before.len() {
            assert(after[i] == before[i]);
            assert(fl[i] == fb[i]);
            assert(files.take(f + 1)[fl[i]] == files.take(f)[fl[i]]);
        } else {
            assert(fl[i] == f);
        }
    }
    if fl.len() == 0 {
        assert forall|g: int| 0 <= g < f + 1 implies crate::grammar::module_outcome(#[trigger] files[g].content@, 0) is Ok by {
            if g < f {
                assert(fb.len() == 0);
            }
        }
    } else {
        if forall|g: int| 0 <= g < f + 1 ==> crate::grammar::module_outcome(#[trigger] files[g].content@, 0) is Ok {
            assert(crate::grammar::module_outcome(files[f].content@, 0) is Ok);
            assert(forall|g: int| 0 <= g < f ==> crate::grammar::module_outcome(#[trigger] files[g].content@, 0) is Ok);
        }
    }
}

proof fn lemma_total_chars_prefix(files: Seq<SourceFile>, i: int)
    requires
        0 <= i < files.len(),
    ensures
        total_chars(files.take(i)) + files[i].content@.len() == total_chars(files.take(i + 1)),
        total_chars(files.take(i + 1)) <= total_chars(files),
    decreases files.len() - i,
{
    assert(files.take(i + 1).drop_last() =~= files.take(i));
    if i + 1 < files.len() {
        lemma_total_chars_prefix(files, i + 1);
    } else {
        assert(files.take(i + 1) =~= files);
    }
}

/// The indexes of the files whose text is not a module, in order.
pub open spec fn failing_files(files: Seq<SourceFile>) -> Seq<int>
    decreases files.len(),
{
    if files.len() == 0 {
        Seq::empty()
    } else {
        failing_files(files.drop_last()) + if crate::grammar::module_outcome(files.last().content@, 0) is Err {
            seq![files.len() - 1]
        } else {
            Seq::empty()
        }
    }
}

/// One syntax error per file that is not a module, in file order.
pub open spec fn syntax_logs(files: Seq<SourceFile>, logs: Seq<Log>) -> bool {
    let failing = failing_files(files);
    &&& logs.len() == failing.len()
    &&& forall|i: int| #![trigger logs[i]] 0 <= i < logs.len() ==> crate::messages::syntax_log(
        logs[i],
        files[failing[i]],
        crate::grammar::module_outcome(files[failing[i]].content@, 0)->Err_0,
    )
}

/// The names of the segments, in order.
pub open spec fn segment_names(segs: Seq<Segment>) -> Seq<Seq<char>>
    decreases segs.len(),
{
    if segs.len() == 0 {
        Seq::empty()
    } else {
        match segs.last() {
            Segment::Name(_, name) => segment_names(segs.drop_last()).push(name@),
            Segment::Parent(_) => segment_names(segs.drop_last()),
        }
    }
}

/// The number of `~` segments.
pub open spec fn parent_count(segs: Seq<Segment>) -> nat
    decreases segs.len(),
{
    if segs.len() == 0 {
        0
    } else {
        parent_count(segs.drop_last()) + if segs.last() is Parent {
            1nat
        } else {
            0nat
        }
    }
}

/// The file an import names: the first whose dotted path is the import's target.
pub open spec fn target_ok(dot_paths: Seq<Vec<char>>, f: int, imp: FileImport) -> bool {
    let path = crate::paths::import_target(dot_paths[f]@, parent_count(imp.import.segments@), segment_names(imp.import.segments@));
    match imp.target {
        Some(g) => 0 <= g < dot_paths.len() && path == Some(dot_paths[g as int]@)
            && forall|g2: int| 0 <= g2 < g ==> path != Some(#[trigger] dot_paths[g2]@),
        None => path matches Some(p) ==> forall|g2: int| 0 <= g2 < dot_paths.len() ==> p != #[trigger] dot_paths[g2]@,
    }
}

/// The file that `imp`, in file `f`, names.
#[verifier::loop_isolation(false)]
fn locate(dot_paths: &Vec<Vec<char>>, f: usize, imp: &Import) -> (r: Option<usize>)
    requires
        f < dot_paths@.len(),
    ensures
        target_ok(dot_paths@, f as int, FileImport { import: *imp, is_top: true, target: r }),
{
    let mut names: Vec<Vec<char>> = Vec::new();
    let mut parents: usize = 0;
    let mut i: usize = 0;
    while i < imp.segments.len()
        invariant
            i <= imp.segments@.len(),
            parents == parent_count(imp.segments@.take(i as int)),
            parents <= i,
            names@.map_values(|n: Vec<char>| n@) == segment_names(imp.segments@.take(i as int)),
        decreases imp.segments.len() - i,
    {
        let ghost before = names@;
        match &imp.segments[i] {
            Segment::Parent(_) => {
                parents = parents + 1;
            },
            Segment::Name(_, name) => {
                names.push(crate::parser::slice_chars(name, 0, name.len()));
                assert(name@.subrange(0, name@.len() as int) =~= name@);
            },
        }
        i = i + 1;
        assert(imp.segments@.take(i as int).drop_last() =~= imp.segments@.take(i - 1));
        assert(names@.map_values(|n: Vec<char>| n@) =~= segment_names(imp.segments@.take(i as int)));
    }
    assert(imp.segments@.take(i as int) =~= imp.segments@);
    match target_path(&dot_paths[f], parents, &names) {
        Some(path) => {
            let mut g: usize = 0;
            while g < dot_paths.len()
                invariant
                    g <= dot_paths@.len(),
                    forall|g2: int| 0 <= g2 < g ==> path@ != #[trigger] dot_paths@[g2]@,
                decreases dot_paths.len() - g,
            {
                if same_chars(&dot_paths[g], &path) {
                    proof {
                        let ip = crate::paths::import_target(dot_paths@[f as int]@, parent_count(imp.segments@), segment_names(imp.segments@));
                        assert(ip == Some(path@));
                        assert(ip == Some(dot_paths@[g as int]@));
                        assert forall|g2: int| 0 <= g2 < g implies ip != Some(#[trigger] dot_paths@[g2]@) by {
                            assert(path@ != dot_paths@[g2]@);
                        }
                    }
                    return Some(g);
                }
                g = g + 1;
            }
            None
        },
        None => None,
    }
}

/// The definitions among the items, in order.
pub open spec fn definitions_of(items: Seq<Item>) -> Seq<Definition>
    decreases items.len(),
{
    if items.len() == 0 {
        Seq::empty()
    } else {
        definitions_of(items.drop_last()) + match items.last() {
            Item::Definition(d) => seq![d],
            Item::Import(_) => Seq::empty(),
        }
    }
}

/// The imports among the items, in order, each with whether no definition comes before it.
pub open spec fn imports_tops(items: Seq<Item>) -> Seq<(Import, bool)>
    decreases items.len(),
{
    if items.len() == 0 {
        Seq::empty()
    } else {
        imports_tops(items.drop_last()) + match items.last() {
            Item::Import(imp) => seq![(imp, crate::parser::definitions_before(items, items.len() - 1) == 0)],
            Item::Definition(_) => Seq::empty(),
        }
    }
}

proof fn lemma_definitions_count(items: Seq<Item>)
    ensures
        definitions_of(items).len() == crate::parser::definitions_before(items, items.len() as int),
    decreases items.len(),
{
    if items.len() > 0 {
        lemma_definitions_count(items.drop_last());
        crate::parser::lemma_definitions_before_prefix(items.drop_last(), items, items.len() - 1);
    }
}

/// The definitions and imports of a file are, in order, those of `items`, the items that the
/// grammar finds in its text; its definitions take identities from `lo` on.
pub open spec fn file_items(code: Seq<char>, defs: Seq<Definition>, imports: Seq<FileImport>, items: Seq<Item>, lo: int) -> bool {
    &&& crate::parser::items_match(code, items, lo)
    &&& defs == definitions_of(items)
    &&& imports.len() == imports_tops(items).len()
    &&& forall|k: int| #![trigger imports[k]] 0 <= k < imports.len() ==> imports[k].import == imports_tops(items)[k].0
        && imports[k].is_top == imports_tops(items)[k].1
}

/// Some items parsed from the text make the file's definitions and imports.
pub open spec fn file_has_items(code: Seq<char>, defs: Seq<Definition>, imports: Seq<FileImport>, lo: int) -> bool {
    exists|items: Seq<Item>| #[trigger] file_items(code, defs, imports, items, lo)
}

proof fn lemma_append_keeps(before: Seq<Definition>, after: Seq<Definition>, added: Seq<Definition>)
    requires
        after == before + added,
    ensures
        after.take(before.len() as int) == before,
        after.subrange(before.len() as int, after.len() as int) == added,
{
    assert(after.take(before.len() as int) =~= before);
    assert(after.subrange(before.len() as int, after.len() as int) =~= added);
}

proof fn lemma_files_step(
    head_codes: Seq<Vec<char>>,
    codes: Seq<Vec<char>>,
    head_defs: Seq<Definition>,
    defs: Seq<Definition>,
    old_imports: Seq<Vec<FileImport>>,
    imports: Seq<Vec<FileImport>>,
    old_starts: Seq<usize>,
    starts: Seq<usize>,
    f: int,
    witness: Seq<Item>,
)
    requires
        0 <= f,
        head_codes.len() == f,
        codes.len() == f + 1,
        forall|g: int| 0 <= g < f ==> codes[g] == head_codes[g],
        old_imports.len() == f,
        imports.len() == f + 1,
        forall|g: int| 0 <= g < f ==> imports[g] == old_imports[g],
        old_starts.len() == f + 1,
        defs.len() <= usize::MAX,
        starts == old_starts.push(defs.len() as usize),
        old_starts[f] == head_defs.len(),
        head_defs.len() <= defs.len(),
        defs.take(head_defs.len() as int) == head_defs,
        forall|a: int, b: int| 0 <= a <= b <= f ==> #[trigger] old_starts[a] <= #[trigger] old_starts[b],
        forall|g: int| #![trigger old_imports[g]] 0 <= g < f ==> file_has_items(head_codes[g]@, head_defs.subrange(old_starts[g] as int, old_starts[g + 1] as int), old_imports[g]@, 2 * old_starts[g]),
        file_items(codes[f]@, defs.subrange(old_starts[f] as int, defs.len() as int), imports[f]@, witness, 2 * old_starts[f]),
    ensures
        forall|g: int| #![trigger imports[g]] 0 <= g < f + 1 ==> file_has_items(codes[g]@, defs.subrange(starts[g] as int, starts[g + 1] as int), imports[g]@, 2 * starts[g]),
{
    assert forall|g: int| #![trigger imports[g]] 0 <= g < f + 1 implies file_has_items(codes[g]@, defs.subrange(starts[g] as int, starts[g + 1] as int), imports[g]@, 2 * starts[g]) by {
        if g < f {
            assert(old_imports[g] == old_imports[g]);
            let w = choose|items: Seq<Item>| #[trigger] file_items(
                head_codes[g]@, head_defs.subrange(old_starts[g] as int, old_starts[g + 1] as int), old_imports[g]@, items, 2 * old_starts[g]);
            assert(old_starts[g + 1] <= old_starts[f]);
            assert(old_starts[g] <= old_starts[g + 1]);
            assert(defs.subrange(starts[g] as int, starts[g + 1] as int) =~= head_defs.subrange(old_starts[g] as int, old_starts[g + 1] as int)) by {
                assert forall|i: int| 0 <= i < old_starts[g + 1] - old_starts[g] implies #[trigger] defs[old_starts[g] + i] == head_defs[old_starts[g] + i] by {
                    assert(defs.take(head_defs.len() as int)[old_starts[g] + i] == defs[old_starts[g] + i]);
                }
            }
            assert(file_items(codes[g]@, defs.subrange(starts[g] as int, starts[g + 1] as int), imports[g]@, w, 2 * starts[g]));
            assert(file_has_items(codes[g]@, defs.subrange(starts[g] as int, starts[g + 1] as int), imports[g]@, 2 * starts[g]));
        } else {
            assert(starts[g] == old_starts[f]);
            assert(starts[g + 1] as int == defs.len());
            assert(file_items(codes[g]@, defs.subrange(starts[g] as int, starts[g + 1] as int), imports[g]@, witness, 2 * starts[g]));
        }
    }
}

/// Moves the items of file `f` into the arena: its definitions after the others, its imports
/// returned with the file each names.
#[verifier::loop_isolation(false)]
fn append_items(
    items: Vec<Item>,
    f: usize,
    dot_paths: &Vec<Vec<char>>,
    code: Ghost<Seq<char>>,
    lo: Ghost<int>,
    hi: Ghost<int>,
    defs: &mut Vec<Definition>,
) -> (file_imports: Vec<FileImport>)
    requires
        f < dot_paths@.len(),
        items_ok(code@, f, items@, lo@, hi@),
        forall|j: int| #![trigger old(defs)@[j]] 0 <= j < old(defs)@.len() ==> expr_id(old(defs)@[j].value) < lo@,
    ensures
        final(defs)@ == old(defs)@ + definitions_of(items@),
        file_imports@.len() == imports_tops(items@).len(),
        forall|k: int| #![trigger file_imports@[k]] 0 <= k < file_imports@.len() ==> {
            &&& file_imports@[k].import == imports_tops(items@)[k].0
            &&& file_imports@[k].is_top == imports_tops(items@)[k].1
            &&& target_ok(dot_paths@, f as int, file_imports@[k])
            &&& crate::parser::import_ok(code@, f, file_imports@[k].import)
        },
        forall|j: int| #![trigger final(defs)@[j]] old(defs)@.len() <= j < final(defs)@.len() ==> {
            &&& final(defs)@[j].name_span.file == f
            &&& definition_ok(code@, f, final(defs)@[j])
            &&& lo@ <= final(defs)@[j].id
            &&& expr_id(final(defs)@[j].value) < hi@
        },
        forall|i: int, j: int|
            #![trigger final(defs)@[i], final(defs)@[j]]
            old(defs)@.len() <= i < j < final(defs)@.len() ==> expr_id(final(defs)@[i].value) < final(defs)@[j].id
                && crate::parser::expr_span(final(defs)@[i].value).end <= crate::parser::expr_span(final(defs)@[j].value).start
                && crate::parser::expr_span(final(defs)@[i].value).end <= final(defs)@[j].name_span.start,
{
    let ghost start = old(defs)@;
    let ghost all = items@;
    let ghost mut last_id: int = lo@ - 1;
    let ghost mut last_end: int = 0;
    let mut file_imports: Vec<FileImport> = Vec::new();
    let mut seen_definition = false;
    assert(definitions_of(all.take(0)) =~= Seq::<Definition>::empty());
    assert(imports_tops(all.take(0)) =~= Seq::<(Import, bool)>::empty());
    assert(defs@ =~= start + definitions_of(all.take(0)));
    for item in it: items
        invariant
            it.seq() == all,
            items_ok(code@, f, all, lo@, hi@),
            f < dot_paths@.len(),
            defs@ == start + definitions_of(all.take(it.index() as int)),
            seen_definition == (crate::parser::definitions_before(all, it.index() as int) > 0),
            file_imports@.len() == imports_tops(all.take(it.index() as int)).len(),
            forall|k: int| #![trigger file_imports@[k]] 0 <= k < file_imports@.len() ==> {
                &&& file_imports@[k].import == imports_tops(all.take(it.index() as int))[k].0
                &&& file_imports@[k].is_top == imports_tops(all.take(it.index() as int))[k].1
                &&& target_ok(dot_paths@, f as int, file_imports@[k])
                &&& crate::parser::import_ok(code@, f, file_imports@[k].import)
            },
            forall|j: int| #![trigger defs@[j]] start.len() <= j < defs@.len() ==> {
                &&& defs@[j].name_span.file == f
                &&& definition_ok(code@, f, defs@[j])
                &&& lo@ <= defs@[j].id
                &&& expr_id(defs@[j].value) < hi@
                &&& expr_id(defs@[j].value) <= last_id
                &&& crate::parser::expr_span(defs@[j].value).end <= last_end
            },
            forall|k: int| #![trigger all[k]] it.index() <= k < all.len() && all[k] is Definition ==> all[k]->Definition_0.id > last_id
                && crate::parser::expr_span(all[k]->Definition_0.value).start >= last_end
                && all[k]->Definition_0.name_span.start >= last_end,
            forall|i: int, j: int|
                #![trigger defs@[i], defs@[j]]
                start.len() <= i < j < defs@.len() ==> expr_id(defs@[i].value) < defs@[j].id
                    && crate::parser::expr_span(defs@[i].value).end <= crate::parser::expr_span(defs@[j].value).start
                    && crate::parser::expr_span(defs@[i].value).end <= defs@[j].name_span.start,
    {
        let ghost k0 = it.index() as int;
        let ghost before = defs@;
        let ghost before_imports = file_imports@;
        assert(all.take(k0 + 1).drop_last() =~= all.take(k0));
        assert(all.take(k0 + 1).last() == all[k0]);
        proof {
            crate::parser::lemma_definitions_before_prefix(all.take(k0 + 1), all, k0);
        }
        match item {
            Item::Import(imp) => {
                let target = locate(dot_paths, f, &imp);
                file_imports.push(FileImport { import: imp, is_top: !seen_definition, target });
                proof {
                    assert forall|k: int| #![trigger file_imports@[k]] 0 <= k < file_imports@.len() implies {
                        &&& file_imports@[k].import == imports_tops(all.take(k0 + 1))[k].0
                        &&& file_imports@[k].is_top == imports_tops(all.take(k0 + 1))[k].1
                        &&& target_ok(dot_paths@, f as int, file_imports@[k])
                        &&& crate::parser::import_ok(code@, f, file_imports@[k].import)
                    } by {
                        if k < before_imports.len() {
                            assert(file_imports@[k] == before_imports[k]);
                        }
                    }
                    assert(defs@ =~= start + definitions_of(all.take(k0 + 1)));
                }
            },
            Item::Definition(d) => {
                seen_definition = true;
                proof {
                    assert(all[k0] == Item::Definition(d));
                    assert forall|k: int| #![trigger all[k]] k0 < k < all.len() && all[k] is Definition implies all[k]->Definition_0.id > expr_id(d.value)
                        && crate::parser::expr_span(all[k]->Definition_0.value).start >= crate::parser::expr_span(d.value).end
                        && all[k]->Definition_0.name_span.start >= crate::parser::expr_span(d.value).end by {
                        assert(all[k0] is Definition);
                    }
                    last_id = expr_id(d.value) as int;
                    last_end = crate::parser::expr_span(d.value).end as int;
                }
                defs.push(d);
                proof {
                    assert(defs@ =~= start + definitions_of(all.take(k0 + 1)));
                    assert(imports_tops(all.take(k0 + 1)) =~= imports_tops(all.take(k0)));
                    assert forall|j: int| #![trigger defs@[j]] start.len() <= j < defs@.len() - 1 implies defs@[j] == before[j] by {}
                }
            },
        }
    }
    assert(all.take(all.len() as int) =~= all);
    file_imports
}

impl Project {
    /// Parses every file, in order, into one arena, and locates the file each import names.
    /// Fails with one syntax error per file that does not parse.
    #[verifier::loop_isolation(false)]
    #[verifier::rlimit(100)]
    pub fn build(files: &Vec<SourceFile>) -> (r: Result<Project, Vec<Log>>)
        requires
            total_chars(files@) + 2 <= u64::MAX,
        ensures
            match r {
                Ok(p) => {
                    &&& p.arena_ok()
                    &&& p.file_count() == files@.len()
                    &&& forall|f: int| #![trigger p.codes@[f]] 0 <= f < files@.len() ==> p.codes@[f]@ == files@[f].content@
                    &&& forall|f: int| #![trigger p.dot_paths@[f]] 0 <= f < files@.len() ==> p.dot_paths@[f]@ == files@[f].dot_path@
                    &&& forall|f: int, k: int| #![trigger p.imports@[f]@[k]] 0 <= f < files@.len() && 0 <= k < p.imports@[f]@.len()
                        ==> target_ok(p.dot_paths@, f, p.imports@[f]@[k])
                    &&& forall|f: int| #![trigger p.imports@[f]] 0 <= f < files@.len() ==> file_has_items(p.codes@[f]@, p.defs@.subrange(p.starts@[f] as int, p.starts@[f + 1] as int), p.imports@[f]@, 2 * p.starts@[f])
                },
                Err(logs) => logs@.len() > 0 && forall|i: int| 0 <= i < logs@.len() ==> (#[trigger] logs@[i]).level == crate::logs::LogLevel::Error,
            },
            r is Err <==> failing_files(files@).len() > 0,
            r matches Err(logs) ==> syntax_logs(files@, logs@),
            r is Ok ==> forall|f: int| 0 <= f < files@.len() ==> (#[trigger] files@[f]).content@.len() >= 0
                && crate::grammar::module_outcome(files@[f].content@, 0) is Ok,
    {
        let n = files.len();
        let mut dot_paths: Vec<Vec<char>> = Vec::new();
        let mut f: usize = 0;
        while f < n
            invariant
                n == files@.len(),
                f <= n,
                dot_paths@.len() == f,
                forall|g: int| #![trigger dot_paths@[g]] 0 <= g < f ==> dot_paths@[g]@ == files@[g].dot_path@,
            decreases n - f,
        {
            dot_paths.push(crate::text::chars_of(files[f].dot_path.as_str()));
            f = f + 1;
        }
        let mut codes: Vec<Vec<char>> = Vec::new();
        let mut imports: Vec<Vec<FileImport>> = Vec::new();
        let mut defs: Vec<Definition> = Vec::new();
        let mut starts: Vec<usize> = vec![0];
        let mut errors: Vec<Log> = Vec::new();
        let mut next_id: u64 = 0;
        let mut f: usize = 0;
        while f < n
            invariant
                n == files@.len(),
                dot_paths@.len() == n,
                forall|g: int| #![trigger dot_paths@[g]] 0 <= g < n ==> dot_paths@[g]@ == files@[g].dot_path@,
                total_chars(files@) + 2 <= u64::MAX,
                f <= n,
                next_id <= total_chars(files@.take(f as int)),
                codes@.len() == f,
                imports@.len() == f,
                forall|i: int| 0 <= i < errors@.len() ==> (#[trigger] errors@[i]).level == crate::logs::LogLevel::Error,
                syntax_logs(files@.take(f as int), errors@),
                failing_files(files@.take(f as int)).len() == 0 <==> forall|g: int| 0 <= g < f ==> crate::grammar::module_outcome(#[trigger] files@[g].content@, 0) is Ok,
                starts@.len() == f + 1,
                starts@[0] == 0,
                starts@[f as int] == defs@.len(),
                forall|a: int, b: int| 0 <= a <= b <= f ==> #[trigger] starts@[a] <= #[trigger] starts@[b],
                forall|g: int| #![trigger codes@[g]] 0 <= g < f ==> codes@[g]@ == files@[g].content@,
                forall|g: int, j: int| #![trigger starts@[g], defs@[j]] 0 <= g < f && starts@[g] <= j < starts@[g + 1] ==> defs@[j].name_span.file == g,
                forall|j: int| #![trigger defs@[j]] 0 <= j < defs@.len() ==> {
                    &&& 0 <= defs@[j].name_span.file < f
                    &&& definition_ok(codes@[defs@[j].name_span.file as int]@, defs@[j].name_span.file, defs@[j])
                    &&& expr_id(defs@[j].value) < next_id
                },
                forall|i: int, j: int|
                    #![trigger defs@[i], defs@[j]]
                    0 <= i < j < defs@.len() ==> expr_id(defs@[i].value) < defs@[j].id,
                forall|i: int, j: int|
                    #![trigger defs@[i], defs@[j]]
                    0 <= i < j < defs@.len() && defs@[i].name_span.file == defs@[j].name_span.file ==> crate::parser::expr_span(defs@[i].value).end
                        <= crate::parser::expr_span(defs@[j].value).start
                        && crate::parser::expr_span(defs@[i].value).end <= defs@[j].name_span.start,
                forall|g: int, k: int| #![trigger imports@[g]@[k]] 0 <= g < f && 0 <= k < imports@[g]@.len()
                    ==> target_ok(dot_paths@, g, imports@[g]@[k]) && crate::parser::import_ok(codes@[g]@, g as usize, imports@[g]@[k].import),
                errors@.len() == 0 ==> next_id == 2 * defs@.len(),
                errors@.len() == 0 ==> forall|g: int| #![trigger imports@[g]] 0 <= g < f ==> file_has_items(
                    codes@[g]@, defs@.subrange(starts@[g] as int, starts@[g + 1] as int), imports@[g]@, 2 * starts@[g]),
            decreases n - f,
        {
            proof {
                lemma_total_chars_prefix(files@, f as int);
            }
            let code = crate::text::chars_of(files[f].content.as_str());
            let ghost prev_next = next_id;
            let (parsed, next) = parse_module(&code, f, next_id);
            next_id = next;
            let mut file_imports: Vec<FileImport> = Vec::new();
            let ghost code_view = code@;
            let ghost errors_before = errors@;
            let ghost head_defs = defs@;
            let ghost head_codes = codes@;
            let ghost mut file_witness: Seq<Item> = Seq::empty();
            let ghost mut ok_here = false;
            let ghost head_imports = imports@;
            let ghost head_starts = starts@;
            codes.push(code);
            assert(codes@[f as int]@ == code_view);
            match parsed {
                Ok(module) => {
                    let ghost items = module.items@;
                    let ghost defs_before = defs@;
                    proof {
                        lemma_definitions_count(items);
                    }
                    file_imports = append_items(module.items, f, &dot_paths, Ghost(code_view), Ghost(prev_next as int), Ghost(next_id as int), &mut defs);
                    proof {
                        lemma_append_keeps(defs_before, defs@, definitions_of(items));
                        if errors_before.len() == 0 {
                            assert(file_items(code_view, defs@.subrange(defs_before.len() as int, defs@.len() as int), file_imports@, items, 2 * defs_before.len() as int)) by {
                                assert(defs@.subrange(defs_before.len() as int, defs@.len() as int) =~= definitions_of(items));
                            }
                            file_witness = items;
                            ok_here = true;
                        }
                    }
                },
                Err(e) => {
                    let log = crate::messages::syntax_error(&e, &files[f]);
                    errors.push(log);
                    assert(errors@.drop_last() =~= errors_before);
                },
            }
            proof {
                lemma_syntax_step(files@, f as int, errors_before, errors@);
            }
            let ghost old_imports = imports@;
            let ghost old_codes = codes@;
            imports.push(file_imports);
            let ghost old_starts = starts@;
            starts.push(defs.len());
            proof {
                assert(errors@.len() == 0 ==> ok_here && errors_before.len() == 0);
                if errors@.len() == 0 {
                    assert(defs@.take(head_defs.len() as int) =~= head_defs);
                    assert(old_imports == head_imports && old_starts == head_starts);
                    lemma_files_step(head_codes, codes@, head_defs, defs@, old_imports, imports@, old_starts, starts@, f as int, file_witness);
                }
            }
            proof {
                assert forall|g: int, j: int| #![trigger starts@[g], defs@[j]] 0 <= g < f + 1 && starts@[g] <= j < starts@[g + 1] implies defs@[j].name_span.file == g by {
                    if g < f {
                        assert(starts@[g] == old_starts[g]);
                        assert(starts@[g + 1] == old_starts[g + 1]);
                        assert(defs@.take(starts@[f as int] as int)[j] == defs@[j]);
                    }
                }
            }
            f = f + 1;
        }
        assert(files@.take(n as int) =~= files@);
        if errors.len() > 0 {
            return Err(errors);
        }
        Ok(Project { codes, dot_paths, imports, defs, starts })
    }
}

} // verus!
