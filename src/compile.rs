//! The compiler's entry: source files in, a program and its diagnostics out.
use crate::codegen::{generation_fails, init_order, init_sequence, layout, shader_text, transpile, variables};
use crate::logs::{Log, LogLevel};
use crate::program::Program;
use crate::project::{failing_files, file_has_items, syntax_logs, target_ok, Index, Project, SourceFile, total_chars};
use crate::validate::{file_error, file_warning, has_level, project_segments, validate_project};
use vstd::prelude::*;

verus! {

/// The log fails compilation: it is an error, or a warning treated as one.
pub open spec fn fails(log: Log, warnings_as_errors: bool) -> bool {
    log.level == LogLevel::Error || (warnings_as_errors && log.level == LogLevel::Warning)
}

/// `p` and `idx` are the project that the files make once parsed, indexed and resolved: each
/// file's definitions and imports are, in order, the items that the grammar finds in its text.
pub open spec fn project_of(p: Project, idx: Index, files: Seq<SourceFile>) -> bool {
    &&& p.arena_ok()
    &&& p.index_ok(idx)
    &&& p.file_count() == files.len()
    &&& forall|f: int| #![trigger p.codes@[f]] 0 <= f < files.len() ==> p.codes@[f]@ == files[f].content@
        && p.dot_paths@[f]@ == files[f].dot_path@
    &&& forall|f: int, k: int| #![trigger p.imports@[f]@[k]] 0 <= f < files.len() && 0 <= k < p.imports@[f]@.len()
        ==> target_ok(p.dot_paths@, f, p.imports@[f]@[k])
    &&& forall|f: int| #![trigger p.imports@[f]] 0 <= f < files.len() ==> file_has_items(
        p.codes@[f]@, p.defs@.subrange(p.starts@[f] as int, p.starts@[f + 1] as int), p.imports@[f]@, 2 * p.starts@[f])
}

pub open spec fn some_file_error(p: Project, idx: Index) -> bool {
    exists|f: int| 0 <= f < p.file_count() && #[trigger] file_error(&p, &idx, f)
}

pub open spec fn some_file_warning(p: Project, idx: Index) -> bool {
    exists|f: int| 0 <= f < p.file_count() && #[trigger] file_warning(&p, &idx, f)
}

/// Validation fails: some file gets an error, or a warning treated as one.
pub open spec fn validation_fails(p: Project, idx: Index, warnings_as_errors: bool) -> bool {
    some_file_error(p, idx) || (warnings_as_errors && some_file_warning(p, idx))
}

/// What compiling a parsed project gives: a failure exactly when validation or generation
/// fails, with the validation diagnostics (and an internal error when only generation
/// failed); otherwise the generated program and the validation diagnostics.
pub open spec fn compiled(p: Project, idx: Index, warnings_as_errors: bool, r: Result<(Program, Vec<Log>), Vec<Log>>) -> bool {
    &&& r is Err <==> (validation_fails(p, idx, warnings_as_errors) || generation_fails(&p, idx.bindings@))
    &&& r matches Ok(done) ==> {
        let vars = variables(&p, p.defs@.len() as int);
        &&& !has_level(done.1@, LogLevel::Error)
        &&& has_level(done.1@, LogLevel::Warning) == some_file_warning(p, idx)
        &&& done.0.buffer.size == 4 * vars.len()
        &&& done.0.buffer.fields@ == layout(&p, vars)
        &&& init_order(&p, idx.bindings@, init_sequence(&p, idx.bindings@))
        &&& done.0.init_shader@ == shader_text(&p, idx.bindings@, init_sequence(&p, idx.bindings@))
        &&& exists|cuts: Seq<int>| #[trigger] project_segments(&p, &idx, done.1@, cuts)
    }
    &&& r matches Err(errs) ==> if validation_fails(p, idx, warnings_as_errors) {
        &&& exists|cuts: Seq<int>| #[trigger] project_segments(&p, &idx, errs@, cuts)
        &&& has_level(errs@, LogLevel::Error) == some_file_error(p, idx)
        &&& has_level(errs@, LogLevel::Warning) == some_file_warning(p, idx)
    } else {
        &&& errs@.len() > 0
        &&& errs@.last().level == LogLevel::Error
        &&& !has_level(errs@.drop_last(), LogLevel::Error)
        &&& has_level(errs@.drop_last(), LogLevel::Warning) == some_file_warning(p, idx)
    }
}

/// Whether the log fails compilation.
pub fn is_log_error(log: &Log, warnings_as_errors: bool) -> (r: bool)
    ensures
        r == fails(*log, warnings_as_errors),
{
    log.level == LogLevel::Error || (warnings_as_errors && log.level == LogLevel::Warning)
}

/// Compiles the files of a project, given sorted by path, whose imports are found under
/// `root_path`. Fails with the diagnostics when one is an error, or a warning while
/// `warnings_as_errors` holds; otherwise returns the program and the diagnostics (warnings
/// only, or none when `warnings_as_errors` holds).
#[verifier::loop_isolation(false)]
pub fn compile(root_path: &str, files: &Vec<SourceFile>, warnings_as_errors: bool) -> (r: Result<
    (Program, Vec<Log>),
    Vec<Log>,
>)
    requires
        total_chars(files@) + 2 <= u64::MAX,
    ensures
        r is Ok ==> forall|i: int| 0 <= i < r->Ok_0.1@.len() ==> !fails(#[trigger] r->Ok_0.1@[i], warnings_as_errors),
        r is Ok ==> r->Ok_0.0.buffer.fields.wf(),
        r is Err ==> exists|i: int| 0 <= i < r->Err_0@.len() && fails(#[trigger] r->Err_0@[i], warnings_as_errors),
        failing_files(files@).len() > 0 ==> r is Err && syntax_logs(files@, r->Err_0@),
        failing_files(files@).len() == 0 ==> exists|p: Project, idx: Index| #[trigger] project_of(p, idx, files@)
            && compiled(p, idx, warnings_as_errors, r),
{
    let project = match Project::build(files) {
        Ok(project) => project,
        Err(logs) => {
            assert(logs@[0].level == LogLevel::Error);
            assert(fails(logs@[0], warnings_as_errors));
            let r: Result<(Program, Vec<Log>), Vec<Log>> = Err(logs);
            assert(r->Err_0@[0] == logs@[0]);
            assert(fails(r->Err_0@[0], warnings_as_errors));
            return r;
        },
    };
    let reach = project.consolidate();
    let index = project.resolve(reach);
    let logs = validate_project(&project, &index, files, root_path);
    assert(project_of(project, index, files@));
    let mut i: usize = 0;
    while i < logs.len()
        invariant
            i <= logs@.len(),
            forall|k: int| 0 <= k < i ==> !fails(#[trigger] logs@[k], warnings_as_errors),
        decreases logs.len() - i,
    {
        if is_log_error(&logs[i], warnings_as_errors) {
            let ghost lv = logs@;
            let r: Result<(Program, Vec<Log>), Vec<Log>> = Err(logs);
            assert(fails(r->Err_0@[i as int], warnings_as_errors));
            proof {
                let c = choose|c: Seq<int>| #[trigger] project_segments(&project, &index, lv, c);
                assert(r->Err_0@ == lv);
                assert(project_segments(&project, &index, r->Err_0@, c));
                assert(r->Err_0@ == logs@);
                if logs@[i as int].level == LogLevel::Error {
                    assert(has_level(logs@, LogLevel::Error));
                } else {
                    assert(has_level(logs@, LogLevel::Warning));
                }
                assert(validation_fails(project, index, warnings_as_errors));
                assert(compiled(project, index, warnings_as_errors, r));
            }
            return r;
        }
        i = i + 1;
    }
    proof {
        assert(!has_level(logs@, LogLevel::Error)) by {
            if has_level(logs@, LogLevel::Error) {
                let k = choose|k: int| 0 <= k < logs@.len() && #[trigger] logs@[k].level == LogLevel::Error;
                assert(!fails(logs@[k], warnings_as_errors));
            }
        }
        if warnings_as_errors {
            assert(!has_level(logs@, LogLevel::Warning)) by {
                if has_level(logs@, LogLevel::Warning) {
                    let k = choose|k: int| 0 <= k < logs@.len() && #[trigger] logs@[k].level == LogLevel::Warning;
                    assert(!fails(logs@[k], warnings_as_errors));
                }
            }
        }
        assert(!validation_fails(project, index, warnings_as_errors));
    }
    match transpile(&project, &index) {
        Some(program) => {
            let ghost lv = logs@;
            let r: Result<(Program, Vec<Log>), Vec<Log>> = Ok((program, logs));
            proof {
                let c = choose|c: Seq<int>| #[trigger] project_segments(&project, &index, lv, c);
                assert(r->Ok_0.1@ == lv);
                assert(project_segments(&project, &index, r->Ok_0.1@, c));
            }
            assert(compiled(project, index, warnings_as_errors, r));
            r
        },
        None => {
            let ghost old_logs = logs@;
            let mut logs = logs;
            let mut message = String::new();
            crate::text::push_str(&mut message, "internal error: the program cannot be generated");
            logs.push(Log { level: LogLevel::Error, message, location: None, inner: Vec::new() });
            let last = logs.len() - 1;
            let r: Result<(Program, Vec<Log>), Vec<Log>> = Err(logs);
            assert(fails(r->Err_0@[last as int], warnings_as_errors));
            proof {
                assert(r->Err_0@.drop_last() =~= old_logs);
                assert(compiled(project, index, warnings_as_errors, r));
            }
            r
        },
    }
}

} // verus!
