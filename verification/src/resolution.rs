//! Where a module named in a `use` is looked for: the files each
//! discovery step tries, in order, and the error when none has it. The
//! caller checks which candidate exists.

use vstd::prelude::*;
use crate::errors::{InterpreterError, IntuitiveErrorFormatter};
use crate::text::{append_str, chars_of, contains_string, is_prefix, lemma_views_push, owned, push_char, str_eq, string_of, strip_prefix, views};

verus! {

/// `dir` joined with `name` as a path: a name that starts at the root
/// replaces `dir`; otherwise a separator goes between them unless `dir` is
/// empty or already ends with one.
pub open spec fn joined(dir: Seq<char>, name: Seq<char>) -> Seq<char> {
    if name.len() > 0 && name[0] == '/' {
        name
    } else if dir.len() == 0 || dir.last() == '/' {
        dir + name
    } else {
        dir + "/"@ + name
    }
}

/// `dir` joined with `name` as a path (see `joined`).
pub fn join_path(dir: &str, name: &str) -> (p: String)
    ensures
        p@ == joined(dir@, name@),
{
    let ncs = chars_of(name);
    if ncs.len() > 0 && ncs[0] == '/' {
        return owned(name);
    }
    let dcs = chars_of(dir);
    let mut p = owned(dir);
    if dcs.len() > 0 && dcs[dcs.len() - 1] != '/' {
        push_char(&mut p, '/');
        proof {
            reveal_strlit("/");
            assert(p@ =~= dir@ + "/"@);
        }
    }
    append_str(&mut p, name);
    p
}

/// The pieces of `s` between dots (at least one piece, as `str::split`
/// gives them).
pub open spec fn split_dots(s: Seq<char>) -> Seq<Seq<char>>
    decreases s.len(),
{
    if s.len() == 0 {
        seq![Seq::empty()]
    } else {
        let p = split_dots(s.drop_last());
        if s.last() == '.' {
            p.push(Seq::empty())
        } else {
            p.update(p.len() - 1, p.last().push(s.last()))
        }
    }
}

/// There is always at least one piece.
pub proof fn lemma_split_dots_nonempty(s: Seq<char>)
    ensures
        split_dots(s).len() >= 1,
    decreases s.len(),
{
    if s.len() > 0 {
        lemma_split_dots_nonempty(s.drop_last());
    }
}

/// Pieces joined with `sep` between them.
pub open spec fn join_pieces(parts: Seq<Seq<char>>, sep: Seq<char>) -> Seq<char>
    decreases parts.len(),
{
    if parts.len() == 0 {
        Seq::empty()
    } else if parts.len() == 1 {
        parts[0]
    } else {
        join_pieces(parts.drop_last(), sep) + sep + parts.last()
    }
}

/// The pieces of `s` between dots.
pub fn split_on_dots(s: &str) -> (parts: Vec<String>)
    ensures
        views(parts@) == split_dots(s@),
{
    let cs = chars_of(s);
    let mut parts: Vec<String> = Vec::new();
    let mut current = String::new();
    let mut i: usize = 0;
    proof {
        assert(cs@.take(0) =~= Seq::<char>::empty());
        assert(views(parts@).push(current@) =~= split_dots(cs@.take(0)));
    }
    while i < cs.len()
        invariant
            i <= cs@.len(),
            cs@ == s@,
            views(parts@).push(current@) == split_dots(cs@.take(i as int)),
        decreases cs@.len() - i,
    {
        let c = cs[i];
        let ghost before_parts = views(parts@);
        let ghost before_current = current@;
        proof {
            let t = cs@.take(i + 1);
            assert(t.drop_last() =~= cs@.take(i as int));
            assert(t.last() == c);
            lemma_split_dots_nonempty(cs@.take(i as int));
        }
        if c == '.' {
            let done = current;
            parts.push(done);
            current = String::new();
            proof {
                assert(views(parts@) =~= before_parts.push(before_current));
                assert(views(parts@).push(current@) =~= split_dots(cs@.take(i + 1)));
            }
        } else {
            push_char(&mut current, c);
            proof {
                let p = before_parts.push(before_current);
                assert(views(parts@).push(current@) =~= p.update(p.len() - 1, p.last().push(c)));
            }
        }
        i = i + 1;
    }
    parts.push(current);
    proof {
        assert(cs@.take(cs@.len() as int) =~= cs@);
    }
    parts
}

/// The pieces `from..to` of `parts` joined with `sep` between them.
pub fn join_strings(parts: &Vec<String>, from: usize, to: usize, sep: &str) -> (s: String)
    requires
        from <= to <= parts@.len(),
    ensures
        s@ == join_pieces(views(parts@).subrange(from as int, to as int), sep@),
{
    let ghost ps = views(parts@).subrange(from as int, to as int);
    let mut s = String::new();
    let mut i: usize = from;
    proof {
        assert(ps.take(0) =~= Seq::<Seq<char>>::empty());
    }
    while i < to
        invariant
            from <= i <= to,
            to <= parts@.len(),
            ps == views(parts@).subrange(from as int, to as int),
            s@ == join_pieces(ps.take(i - from), sep@),
        decreases to - i,
    {
        if i > from {
            append_str(&mut s, sep);
        }
        append_str(&mut s, parts[i].as_str());
        proof {
            let t = ps.take(i - from + 1);
            assert(t.drop_last() =~= ps.take(i - from));
            assert(t.last() == parts@[i as int]@);
            if i == from {
                assert(s@ =~= t[0]);
            }
        }
        i = i + 1;
    }
    proof {
        assert(ps.take(to - from) =~= ps);
    }
    s
}

/// The files tried for `module` inside the directory `dep` of the package
/// the module's first piece names: the package's root files for a bare
/// package name, else the rest of the path as a file, a directory index or
/// module file, or a file under `src`.
pub open spec fn dependency_candidates(dep: Seq<char>, module: Seq<char>) -> Seq<Seq<char>> {
    let parts = split_dots(module);
    let head = parts[0];
    let rest = parts.drop_first();
    if rest.len() == 0 {
        seq![
            joined(dep, "index.ol"@),
            joined(dep, "mod.ol"@),
            joined(dep, head + ".ol"@),
            joined(joined(dep, "src"@), "index.ol"@),
        ]
    } else {
        let sub = join_pieces(rest, "/"@);
        seq![
            joined(dep, sub + ".ol"@),
            joined(joined(dep, sub), "index.ol"@),
            joined(joined(dep, sub), "mod.ol"@),
            joined(joined(dep, "src"@), sub + ".ol"@),
        ]
    }
}

/// The package a module path starts with (its first piece).
pub fn package_of(module: &str) -> (head: String)
    ensures
        head@ == split_dots(module@)[0],
{
    let parts = split_on_dots(module);
    proof {
        lemma_split_dots_nonempty(module@);
        assert(views(parts@)[0] == parts@[0]@);
    }
    owned(parts[0].as_str())
}

/// The files tried for `module` inside the package directory `dep` (see
/// `dependency_candidates`), in order.
pub fn dependency_candidate_files(dep: &str, module: &str) -> (c: Vec<String>)
    ensures
        views(c@) == dependency_candidates(dep@, module@),
{
    let parts = split_on_dots(module);
    proof {
        lemma_split_dots_nonempty(module@);
        assert(views(parts@)[0] == parts@[0]@);
    }
    let head = &parts[0];
    let mut c: Vec<String> = Vec::new();
    if parts.len() == 1 {
        proof {
            assert(split_dots(module@).drop_first().len() == 0);
        }
        c.push(join_path(dep, "index.ol"));
        c.push(join_path(dep, "mod.ol"));
        let mut f = owned(head.as_str());
        append_str(&mut f, ".ol");
        c.push(join_path(dep, f.as_str()));
        let src = join_path(dep, "src");
        c.push(join_path(src.as_str(), "index.ol"));
    } else {
        let sub = join_strings(&parts, 1, parts.len(), "/");
        proof {
            assert(views(parts@).subrange(1, parts@.len() as int) =~= split_dots(module@).drop_first());
        }
        let mut f = owned(sub.as_str());
        append_str(&mut f, ".ol");
        c.push(join_path(dep, f.as_str()));
        let subdir = join_path(dep, sub.as_str());
        c.push(join_path(subdir.as_str(), "index.ol"));
        c.push(join_path(subdir.as_str(), "mod.ol"));
        let src = join_path(dep, "src");
        c.push(join_path(src.as_str(), f.as_str()));
    }
    proof {
        assert(views(c@) =~= dependency_candidates(dep@, module@));
    }
    c
}

/// The files tried for `module` in the directory `base`: for a dotted
/// path, the last piece as a file in the directory the other pieces name,
/// then that directory's index or module file; for a plain name, the file
/// in `base`, then (when `module_is_dir`, i.e. `base` has a directory of
/// that name) its index or module file; then the same under `base/src`.
pub open spec fn directory_candidates(base: Seq<char>, module: Seq<char>, module_is_dir: bool) -> Seq<Seq<char>> {
    let parts = split_dots(module);
    let file = parts.last() + ".ol"@;
    let dir = if parts.len() > 1 {
        join_pieces(parts.drop_last(), "/"@)
    } else {
        Seq::empty()
    };
    let here = if dir.len() > 0 {
        seq![joined(joined(base, dir), file), joined(joined(base, dir), "index.ol"@), joined(joined(base, dir), "mod.ol"@)]
    } else if module_is_dir {
        seq![joined(base, file), joined(joined(base, module), "index.ol"@), joined(joined(base, module), "mod.ol"@)]
    } else {
        seq![joined(base, file)]
    };
    let in_src = if dir.len() > 0 {
        let s = joined(joined(base, "src"@), dir);
        seq![joined(s, file), joined(s, "mod.ol"@), joined(s, "index.ol"@)]
    } else {
        seq![joined(joined(base, "src"@), file)]
    };
    here + in_src
}

/// The directory a plain module name would be, inside `base`.
pub fn module_directory(base: &str, module: &str) -> (d: String)
    ensures
        d@ == joined(base@, module@),
{
    join_path(base, module)
}

/// The files tried for `module` in the directory `base` (see
/// `directory_candidates`), in order.
pub fn directory_candidate_files(base: &str, module: &str, module_is_dir: bool) -> (c: Vec<String>)
    ensures
        views(c@) == directory_candidates(base@, module@, module_is_dir),
{
    let parts = split_on_dots(module);
    proof {
        lemma_split_dots_nonempty(module@);
    }
    let n = parts.len();
    let mut file = owned(parts[n - 1].as_str());
    append_str(&mut file, ".ol");
    proof {
        assert(views(parts@).last() == parts@[n - 1]@);
    }
    let dir = if n > 1 {
        let d = join_strings(&parts, 0, n - 1, "/");
        proof {
            assert(views(parts@).subrange(0, n - 1) =~= split_dots(module@).drop_last());
        }
        d
    } else {
        String::new()
    };
    let mut c: Vec<String> = Vec::new();
    let dir_empty = dir.unicode_len() == 0;
    if !dir_empty {
        let t = join_path(base, dir.as_str());
        c.push(join_path(t.as_str(), file.as_str()));
        c.push(join_path(t.as_str(), "index.ol"));
        c.push(join_path(t.as_str(), "mod.ol"));
    } else {
        c.push(join_path(base, file.as_str()));
        if module_is_dir {
            let t = join_path(base, module);
            c.push(join_path(t.as_str(), "index.ol"));
            c.push(join_path(t.as_str(), "mod.ol"));
        }
    }
    let src = join_path(base, "src");
    if !dir_empty {
        let s = join_path(src.as_str(), dir.as_str());
        c.push(join_path(s.as_str(), file.as_str()));
        c.push(join_path(s.as_str(), "mod.ol"));
        c.push(join_path(s.as_str(), "index.ol"));
    } else {
        c.push(join_path(src.as_str(), file.as_str()));
    }
    proof {
        assert(views(c@) =~= directory_candidates(base@, module@, module_is_dir));
    }
    c
}

/// Where a standard-library module resolves: `__stdlib__/` and its name,
/// for a name the library has, with or without a `std.` prefix; an error
/// otherwise.
pub open spec fn stdlib_path_spec(module: Seq<char>, names: Seq<Seq<char>>) -> Option<Seq<char>> {
    if names.contains(module) {
        Some("__stdlib__/"@ + module)
    } else if is_prefix("std."@, module) && names.contains(module.skip(4)) {
        Some("__stdlib__/"@ + module.skip(4))
    } else {
        None
    }
}

/// Where a standard-library module resolves (see `stdlib_path_spec`),
/// given the names the standard library has.
pub fn stdlib_module_path(module: &str, stdlib_names: &Vec<String>) -> (r: Result<String, InterpreterError>)
    ensures
        match r {
            Ok(p) => stdlib_path_spec(module@, views(stdlib_names@)) == Some(p@),
            Err(e) => stdlib_path_spec(module@, views(stdlib_names@)) is None && (e matches InterpreterError::RuntimeError {
                message: m,
            } && m@ == "Not a standard library module: "@ + module@),
        },
{
    proof {
        reveal_strlit("std.");
    }
    let m = owned(module);
    if contains_string(stdlib_names, &m) {
        let mut p = owned("__stdlib__/");
        append_str(&mut p, module);
        return Ok(p);
    }
    if let Some(rest) = strip_prefix(module, "std.") {
        if contains_string(stdlib_names, &rest) {
            let mut p = owned("__stdlib__/");
            append_str(&mut p, rest.as_str());
            return Ok(p);
        }
    }
    let mut msg = owned("Not a standard library module: ");
    append_str(&mut msg, module);
    Err(InterpreterError::RuntimeError { message: msg })
}

/// `s` with every trailing copy of `p` removed.
pub open spec fn trim_end_all(s: Seq<char>, p: Seq<char>) -> Seq<char>
    decreases s.len(),
{
    if p.len() > 0 && p.len() <= s.len() && s.skip(s.len() - p.len()) == p {
        trim_end_all(s.take(s.len() - p.len()), p)
    } else {
        s
    }
}

/// Whether `s` ends with `p`.
pub open spec fn ends_with(s: Seq<char>, p: Seq<char>) -> bool {
    p.len() <= s.len() && s.skip(s.len() - p.len()) == p
}

/// Whether `cs` ends with `p`.
fn ends_with_chars(cs: &Vec<char>, p: &str) -> (r: bool)
    ensures
        r == ends_with(cs@, p@),
{
    let ps = chars_of(p);
    if ps.len() > cs.len() {
        return false;
    }
    let n = cs.len();
    let off = n - ps.len();
    let mut i: usize = 0;
    while i < ps.len()
        invariant
            ps@ == p@,
            n == cs@.len(),
            off + ps@.len() == n,
            i <= ps@.len(),
            forall|k: int| 0 <= k < i ==> cs@[off + k] == ps@[k],
        decreases ps@.len() - i,
    {
        if cs[off + i] != ps[i] {
            assert(cs@.skip(off as int)[i as int] != p@[i as int]);
            return false;
        }
        i = i + 1;
    }
    assert(cs@.skip(off as int) =~= p@);
    true
}

/// `s` with every trailing copy of `p` removed.
fn trim_end_all_exec(s: &str, p: &str) -> (r: String)
    ensures
        r@ == trim_end_all(s@, p@),
{
    let mut cs = chars_of(s);
    let pn = p.unicode_len();
    if pn == 0 {
        return owned(s);
    }
    while ends_with_chars(&cs, p)
        invariant
            pn == p@.len(),
            pn > 0,
            trim_end_all(cs@, p@) == trim_end_all(s@, p@),
        decreases cs@.len(),
    {
        let ghost before = cs@;
        let keep = cs.len() - pn;
        cs.truncate(keep);
        proof {
            assert(cs@ =~= before.take(before.len() - p@.len()));
        }
    }
    string_of(cs.as_slice())
}

/// The module names a directory listing offers: the `.ol` files other
/// than `main.ol`, without their extension.
pub open spec fn listed_modules(names: Seq<Seq<char>>) -> Seq<Seq<char>>
    decreases names.len(),
{
    if names.len() == 0 {
        Seq::empty()
    } else {
        let n = names.last();
        listed_modules(names.drop_last()) + if ends_with(n, ".ol"@) && n != "main.ol"@ {
            seq![trim_end_all(n, ".ol"@)]
        } else {
            Seq::empty()
        }
    }
}

/// The places a failed module search looked.
pub open spec fn searched_places(current_dir: Option<Seq<char>>, project_root: Option<Seq<char>>) -> Seq<Seq<char>> {
    (match current_dir {
        Some(d) => seq!["Same directory: "@ + d],
        None => Seq::empty(),
    }) + (match project_root {
        Some(r) => seq!["Project root: "@ + r],
        None => Seq::empty(),
    }) + seq!["Standard library modules"@]
}

/// The module names offered when a module is not found: the standard
/// library's, then those the current directory's listing offers.
pub open spec fn offered_modules(stdlib_names: Seq<Seq<char>>, dir_entries: Seq<Seq<char>>) -> Seq<Seq<char>> {
    stdlib_names + listed_modules(dir_entries)
}

/// The error for a module no discovery step found: where it was looked
/// for (the current directory and the project root when known, and the
/// standard library), the modules that exist (the standard library's,
/// then the `.ol` files of the current directory), and the names among
/// them close to the one asked for.
pub fn module_not_found_error(
    formatter: &IntuitiveErrorFormatter,
    module: &str,
    current_dir: Option<&str>,
    project_root: Option<&str>,
    stdlib_names: &Vec<String>,
    dir_entries: &Vec<String>,
) -> (e: InterpreterError)
    ensures
        e matches InterpreterError::ModuleNotFound { module_name, searched_paths, available_modules, suggestions }
            && module_name@ == module@ && views(searched_paths@) == searched_places(
            match current_dir {
                Some(d) => Some(d@),
                None => None,
            },
            match project_root {
                Some(r) => Some(r@),
                None => None,
            },
        ) && views(available_modules@) == offered_modules(views(stdlib_names@), views(dir_entries@))
            && views(suggestions@) == crate::errors::suggestions_spec(
            module@,
            views(available_modules@),
            formatter.max_suggestions as nat,
        ),
{
    let mut searched: Vec<String> = Vec::new();
    if let Some(d) = current_dir {
        let mut s = owned("Same directory: ");
        append_str(&mut s, d);
        searched.push(s);
    }
    if let Some(r) = project_root {
        let mut s = owned("Project root: ");
        append_str(&mut s, r);
        searched.push(s);
    }
    searched.push(owned("Standard library modules"));
    proof {
        assert(views(searched@) =~= searched_places(
            match current_dir {
                Some(d) => Some(d@),
                None => None,
            },
            match project_root {
                Some(r) => Some(r@),
                None => None,
            },
        ));
    }
    let mut available: Vec<String> = Vec::new();
    let mut i: usize = 0;
    while i < stdlib_names.len()
        invariant
            i <= stdlib_names@.len(),
            views(available@) == views(stdlib_names@).take(i as int),
        decreases stdlib_names@.len() - i,
    {
        let ghost before = available@;
        let item = owned(stdlib_names[i].as_str());
        available.push(item);
        proof {
            lemma_views_push(before, item);
            assert(views(stdlib_names@).take(i + 1) =~= views(stdlib_names@).take(i as int).push(stdlib_names@[i as int]@));
        }
        i = i + 1;
    }
    proof {
        assert(views(stdlib_names@).take(stdlib_names@.len() as int) =~= views(stdlib_names@));
        assert(views(dir_entries@).take(0) =~= Seq::<Seq<char>>::empty());
        assert(views(available@) =~= views(stdlib_names@) + listed_modules(views(dir_entries@).take(0)));
    }
    let mut j: usize = 0;
    while j < dir_entries.len()
        invariant
            j <= dir_entries@.len(),
            views(available@) == views(stdlib_names@) + listed_modules(views(dir_entries@).take(j as int)),
        decreases dir_entries@.len() - j,
    {
        let name = &dir_entries[j];
        let ncs = chars_of(name.as_str());
        let ghost t = views(dir_entries@).take(j + 1);
        proof {
            assert(t.drop_last() =~= views(dir_entries@).take(j as int));
            assert(t.last() == name@);
        }
        if ends_with_chars(&ncs, ".ol") && !str_eq(name.as_str(), "main.ol") {
            let trimmed = trim_end_all_exec(name.as_str(), ".ol");
            let ghost before = available@;
            let ghost tv = trimmed;
            available.push(trimmed);
            proof {
                lemma_views_push(before, tv);
                assert(views(available@) =~= views(stdlib_names@) + listed_modules(t));
            }
        } else {
            proof {
                assert(views(available@) =~= views(stdlib_names@) + listed_modules(t));
            }
        }
        j = j + 1;
    }
    proof {
        assert(views(dir_entries@).take(dir_entries@.len() as int) =~= views(dir_entries@));
    }
    let suggestions = formatter.generate_suggestions(module, &available);
    InterpreterError::ModuleNotFound {
        module_name: owned(module),
        searched_paths: searched,
        available_modules: available,
        suggestions,
    }
}

} // verus!
