//! The interpreter's error type and the text each error displays.

use vstd::prelude::*;
use crate::ast::Value;
use crate::distance::{char_distance, edit_distance};
use crate::text::{
    append_str, chars_of, decimal, is_prefix, owned, push_repeated, repeat_char, starts_with,
    strip_prefix, usize_to_string, views,
};

verus! {

/// Errors raised while evaluating a program, and the control-flow signals
/// that travel the same channel (an error only if they escape to the top
/// level).
#[derive(Debug)]
pub enum InterpreterError {
    UndefinedVariable { name: String },
    TypeError { message: String },
    RuntimeError { message: String },
    ArityMismatch { expected: usize, got: usize },
    PatternMatchFailed,
    /// `break` outside a loop; carries `break value`'s value (Unit when bare).
    BreakSignal(Value),
    /// `continue` outside a loop.
    ContinueSignal,
    /// `return` outside a function; carries the returned value.
    ReturnSignal(Value),
    /// `?` on an Err outside any function; carries the Err value.
    ErrPropagation(Value),
    CircularDependencyDetected { cycle_path: String },
    ModuleNotFound {
        module_name: String,
        searched_paths: Vec<String>,
        available_modules: Vec<String>,
        suggestions: Vec<String>,
    },
    FunctionNotFoundInModule {
        function_name: String,
        module_name: String,
        available_functions: Vec<String>,
        suggestions: Vec<String>,
        file_path: Option<String>,
    },
    ImportError {
        file_path: String,
        line: usize,
        column: Option<usize>,
        import_path: String,
        reason: String,
        suggestions: Vec<String>,
    },
    MultiFileTypeMismatch {
        file_path: String,
        module_name: String,
        expected_type: String,
        actual_type: String,
        function_name: Option<String>,
        suggestions: Vec<String>,
    },
    DependencyChainError { chain: Vec<String>, root_error: String, suggested_fix: String },
}

/// The prefix every runtime error displays.
pub open spec fn runtime_prefix() -> Seq<char> {
    "Runtime error: "@
}

/// `s` with every leading copy of the runtime-error prefix removed.
pub open spec fn strip_runtime_prefixes(s: Seq<char>) -> Seq<char>
    decreases s.len(),
{
    if is_prefix(runtime_prefix(), s) && runtime_prefix().len() > 0 {
        strip_runtime_prefixes(s.skip(runtime_prefix().len() as int))
    } else {
        s
    }
}

/// Stripping leaves no prefix behind, and stripping twice is stripping once.
pub proof fn lemma_strip_runtime_prefixes(s: Seq<char>)
    ensures
        !is_prefix(runtime_prefix(), strip_runtime_prefixes(s)),
        strip_runtime_prefixes(strip_runtime_prefixes(s)) == strip_runtime_prefixes(s),
    decreases s.len(),
{
    reveal_strlit("Runtime error: ");
    if is_prefix(runtime_prefix(), s) {
        lemma_strip_runtime_prefixes(s.skip(runtime_prefix().len() as int));
    }
}

impl InterpreterError {
    /// A runtime error from a message that may already carry the
    /// "Runtime error: " prefix (a worker's error re-raised by the thread
    /// that joined it, a tier's message re-wrapped at the boundary): every
    /// leading copy is removed, so the prefix is added exactly once, where
    /// the error is displayed.
    pub fn runtime(message: String) -> (e: InterpreterError)
        ensures
            e matches InterpreterError::RuntimeError { message: m } && m@ == strip_runtime_prefixes(
                message@,
            ),
    {
        let ghost initial = message@;
        let mut message = message;
        proof {
            reveal_strlit("Runtime error: ");
        }
        loop
            invariant
                strip_runtime_prefixes(message@) == strip_runtime_prefixes(initial),
            ensures
                message@ == strip_runtime_prefixes(initial),
            decreases message@.len(),
        {
            proof {
                reveal_strlit("Runtime error: ");
            }
            match strip_prefix(message.as_str(), "Runtime error: ") {
                Some(rest) => {
                    message = rest;
                },
                None => {
                    break;
                },
            }
        }
        InterpreterError::RuntimeError { message }
    }
}


/// The enhanced error formatter for multi-file development: what it shows
/// and how many items of a list it shows.
#[derive(Clone, Copy, Debug)]
pub struct IntuitiveErrorFormatter {
    pub use_colors: bool,
    pub show_suggestions: bool,
    pub show_context: bool,
    pub max_suggestions: usize,
    pub max_list_items: usize,
}

impl Default for IntuitiveErrorFormatter {
    /// Colors, suggestions and context on; five suggestions and ten list
    /// items at most.
    fn default() -> (f: Self)
        ensures
            f.use_colors && f.show_suggestions && f.show_context,
            f.max_suggestions == 5,
            f.max_list_items == 10,
    {
        IntuitiveErrorFormatter {
            use_colors: true,
            show_suggestions: true,
            show_context: true,
            max_suggestions: 5,
            max_list_items: 10,
        }
    }
}

/// At most the first `n` items of `s`.
pub open spec fn take_at_most<A>(s: Seq<A>, n: nat) -> Seq<A> {
    if n >= s.len() { s } else { s.take(n as int) }
}

/// One bullet line per item: `  • item\n`.
pub open spec fn bullets(items: Seq<Seq<char>>) -> Seq<char>
    decreases items.len(),
{
    if items.len() == 0 {
        seq![]
    } else {
        bullets(items.drop_last()) + "  • "@ + items.last() + "\n"@
    }
}

/// A path with a leading home directory shown as `~`: `HOME` is tried
/// first, then `USERPROFILE`; a path under neither is shown unchanged.
pub open spec fn sanitized(raw: Seq<char>, home: Option<Seq<char>>, userprofile: Option<Seq<char>>) -> Seq<char> {
    if home is Some && is_prefix(home->0, raw) {
        "~"@ + raw.skip(home->0.len() as int)
    } else if userprofile is Some && is_prefix(userprofile->0, raw) {
        "~"@ + raw.skip(userprofile->0.len() as int)
    } else {
        raw
    }
}

/// The number of bytes of a character in UTF-8.
pub open spec fn utf8_width(c: char) -> nat {
    if (c as u32) < 0x80 {
        1
    } else if (c as u32) < 0x800 {
        2
    } else if (c as u32) < 0x10000 {
        3
    } else {
        4
    }
}

/// The number of bytes of a string in UTF-8 (what `str::len` returns).
pub open spec fn utf8_len(s: Seq<char>) -> nat
    decreases s.len(),
{
    if s.len() == 0 {
        0
    } else {
        utf8_len(s.drop_last()) + utf8_width(s.last())
    }
}

/// The text of a module-not-found error.
pub open spec fn module_not_found_text(
    f: IntuitiveErrorFormatter,
    module: Seq<char>,
    searched: Seq<Seq<char>>,
    available: Seq<Seq<char>>,
    suggestions: Seq<Seq<char>>,
    home: Option<Seq<char>>,
    userprofile: Option<Seq<char>>,
) -> Seq<char> {
    "Error: Cannot find module '"@ + module + "'\n"@
    + (if searched.len() > 0 {
        "\nSearched in:\n"@ + bullets(searched.map_values(|p: Seq<char>| sanitized(p, home, userprofile)))
    } else {
        seq![]
    })
    + (if suggestions.len() > 0 {
        "\nDid you mean:\n"@ + bullets(take_at_most(suggestions, f.max_suggestions as nat))
    } else {
        seq![]
    })
    + (if available.len() > 0 {
        "\nAvailable modules:\n"@ + bullets(take_at_most(available, f.max_list_items as nat))
        + (if available.len() > f.max_list_items {
            "  ... and "@ + decimal((available.len() - f.max_list_items) as nat) + " more\n"@
        } else {
            seq![]
        })
    } else {
        seq![]
    })
    + "\nHelp:\n"@
    + "  • Check the module path spelling\n"@
    + "  • A file in this project imports as `use lib.<name>` (lib/) or `use <name>` (same directory)\n"@
    + "  • Registered shelf libraries import by name — `otc lib list` shows them, `otc lib add <path>` registers one\n"@
}

/// The opening of a function-not-found-in-module error: what is missing,
/// where, and the import statement with the name underlined (one caret
/// per byte of the name).
pub open spec fn function_not_found_head(
    function: Seq<char>,
    function_bytes: nat,
    module: Seq<char>,
    file: Option<Seq<char>>,
    home: Option<Seq<char>>,
    userprofile: Option<Seq<char>>,
) -> Seq<char> {
    "Error: Cannot find '"@ + function + "' in "@ + module + "\n"@
    + (match file {
        Some(path) => "  --> "@ + sanitized(path, home, userprofile) + "\n"@,
        None => seq![],
    })
    + "\nIn import statement:\n"@
    + "  use "@ + module + " { "@ + function + " }\n"@
    + "             "@ + repeat_char('^', function_bytes) + "\n"@
}

/// The suggestions and available functions of a function-not-found error.
pub open spec fn function_not_found_lists(
    f: IntuitiveErrorFormatter,
    module: Seq<char>,
    available: Seq<Seq<char>>,
    suggestions: Seq<Seq<char>>,
) -> Seq<char> {
    (if suggestions.len() > 0 {
        "\nDid you mean:\n"@ + bullets(take_at_most(suggestions, f.max_suggestions as nat))
    } else {
        seq![]
    })
    + (if available.len() > 0 {
        "\nAvailable functions in "@ + module + ":\n"@ + bullets(take_at_most(available, f.max_list_items as nat))
        + (if available.len() > f.max_list_items {
            "  ... and "@ + decimal((available.len() - f.max_list_items) as nat) + " more\n"@
        } else {
            seq![]
        })
    } else {
        seq![]
    })
}

/// The closing help of a function-not-found error.
pub open spec fn function_not_found_help(module: Seq<char>) -> Seq<char> {
    "\nHelp:\n"@
    + "  • Check the function name spelling\n"@
    + "  • Ensure the function is marked with 'share' in the module\n"@
    + "  • Try: use "@ + module + " { available_function_name }\n"@
}

/// The text of a function-not-found-in-module error.
pub open spec fn function_not_found_text(
    f: IntuitiveErrorFormatter,
    function: Seq<char>,
    function_bytes: nat,
    module: Seq<char>,
    available: Seq<Seq<char>>,
    suggestions: Seq<Seq<char>>,
    file: Option<Seq<char>>,
    home: Option<Seq<char>>,
    userprofile: Option<Seq<char>>,
) -> Seq<char> {
    function_not_found_head(function, function_bytes, module, file, home, userprofile)
        + function_not_found_lists(f, module, available, suggestions) + function_not_found_help(module)
}

/// The text of an import error.
pub open spec fn import_error_text(
    f: IntuitiveErrorFormatter,
    file: Seq<char>,
    line: usize,
    column: Option<usize>,
    import_path: Seq<char>,
    reason: Seq<char>,
    suggestions: Seq<Seq<char>>,
    home: Option<Seq<char>>,
    userprofile: Option<Seq<char>>,
) -> Seq<char> {
    "Error: Import failed\n"@
    + "  --> "@ + sanitized(file, home, userprofile) + ":"@ + decimal(line as nat)
    + (match column {
        Some(c) => ":"@ + decimal(c as nat),
        None => seq![],
    })
    + "\n"@
    + "\nFailed to import: "@ + import_path + "\n"@
    + "Reason: "@ + reason + "\n"@
    + (if suggestions.len() > 0 {
        "\nSuggestions:\n"@ + bullets(take_at_most(suggestions, f.max_suggestions as nat))
    } else {
        seq![]
    })
}

/// The text of a type mismatch across modules.
pub open spec fn type_mismatch_text(
    file: Seq<char>,
    module: Seq<char>,
    expected: Seq<char>,
    actual: Seq<char>,
    function: Option<Seq<char>>,
    suggestions: Seq<Seq<char>>,
) -> Seq<char> {
    (match function {
        Some(name) => "Error: Type mismatch in function '"@ + name + "'\n"@,
        None => "Error: Type mismatch\n"@,
    })
    + "  --> "@ + file + " (from module "@ + module + ")\n"@
    + "\nExpected: "@ + expected + "\n"@
    + "Found:    "@ + actual + "\n"@
    + (if suggestions.len() > 0 {
        "\nSuggestions:\n"@ + bullets(suggestions)
    } else {
        seq![]
    })
}

/// The lines drawing a dependency chain: the first module opens it, the
/// last is marked as where the error is.
pub open spec fn chain_lines(chain: Seq<Seq<char>>, n: nat) -> Seq<char>
    decreases n,
{
    if n == 0 || n > chain.len() {
        seq![]
    } else {
        let i = n - 1;
        chain_lines(chain, (n - 1) as nat) + if i == chain.len() - 1 {
            "  "@ + "└─"@ + " "@ + chain[i] + " (error here)\n"@
        } else {
            "  "@ + (if i == 0 { "┌─"@ } else { "├─"@ }) + " "@ + chain[i] + "\n"@
        }
    }
}

/// The text of a dependency chain failure.
pub open spec fn dependency_chain_text(chain: Seq<Seq<char>>, root: Seq<char>, fix: Seq<char>) -> Seq<char> {
    "Error: Dependency chain failure\n\n"@ + "Dependency chain:\n"@ + chain_lines(chain, chain.len())
        + "\nRoot cause: "@ + root + "\n"@ + "\nSuggested fix: "@ + fix + "\n"@
}

/// The declaration hint for a contextual keyword read as a variable.
pub open spec fn keyword_hint(name: Seq<char>) -> Option<Seq<char>> {
    if name == "error"@ {
        Some(
            "`error` declares an error type — `error Name { Variant, WithPayload: { field: Type } }`. A malformed one parses as this variable instead."@,
        )
    } else if name == "share"@ {
        Some("`share` exports a declaration — `share fn ...`, `share type ...`, or `share use ...`."@)
    } else if name == "test"@ {
        Some("`test` declares a test block — `test \"name\" { ... }`."@)
    } else if name == "trait"@ {
        Some("`trait` declares a trait — `trait Name { fn method(self) -> T }`."@)
    } else {
        None
    }
}

/// The text of an undefined variable: a contextual keyword (`error`,
/// `share`, `test`, `trait`) read as a variable is almost always a
/// malformed declaration, so it points at the declaration form.
pub open spec fn undefined_variable_text(name: Seq<char>) -> Seq<char> {
    let base = "Undefined variable: "@ + name;
    match keyword_hint(name) {
        Some(hint) => base + "\n\nHelp:\n  • Did you mean a declaration? "@ + hint,
        None => base,
    }
}


/// Appends a bullet line for each of the first `limit` items.
fn push_bullets(r: &mut String, items: &Vec<String>, limit: usize)
    ensures
        final(r)@ == old(r)@ + bullets(take_at_most(views(items@), limit as nat)),
{
    let n = if limit < items.len() { limit } else { items.len() };
    let mut i: usize = 0;
    proof {
        assert(views(items@).take(0) =~= Seq::<Seq<char>>::empty());
        assert(r@ =~= old(r)@ + bullets(views(items@).take(0)));
    }
    while i < n
        invariant
            n <= items@.len(),
            i <= n,
            r@ == old(r)@ + bullets(views(items@).take(i as int)),
        decreases n - i,
    {
        append_str(r, "  • ");
        append_str(r, items[i].as_str());
        append_str(r, "\n");
        proof {
            assert(views(items@).take(i + 1).drop_last() =~= views(items@).take(i as int));
            assert(views(items@).take(i + 1).last() == items@[i as int]@);
            assert(r@ =~= old(r)@ + bullets(views(items@).take(i + 1)));
        }
        i = i + 1;
    }
    proof {
        if limit as nat >= items@.len() {
            assert(views(items@).take(n as int) =~= views(items@));
        }
    }
}

impl IntuitiveErrorFormatter {
    /// A path with a leading home directory (`HOME`, else `USERPROFILE`)
    /// shown as `~`, so messages do not leak where the user lives.
    pub fn sanitize_path(&self, raw: &str, home: Option<&str>, userprofile: Option<&str>) -> (r: String)
        ensures
            r@ == sanitized(
                raw@,
                match home {
                    Some(h) => Some(h@),
                    None => None,
                },
                match userprofile {
                    Some(u) => Some(u@),
                    None => None,
                },
            ),
    {
        if let Some(h) = home {
            if let Some(rest) = strip_prefix(raw, h) {
                let mut r = owned("~");
                append_str(&mut r, rest.as_str());
                return r;
            }
        }
        if let Some(u) = userprofile {
            if let Some(rest) = strip_prefix(raw, u) {
                let mut r = owned("~");
                append_str(&mut r, rest.as_str());
                return r;
            }
        }
        owned(raw)
    }

    /// The Levenshtein distance between two identifiers, counted in
    /// Unicode scalar values (not bytes), for "did you mean" suggestions.
    pub fn levenshtein_distance(a: &str, b: &str) -> (d: usize)
        ensures
            d == edit_distance(a@, b@),
    {
        let x = chars_of(a);
        let y = chars_of(b);
        char_distance(&x, &y)
    }
}


/// An optional string as an optional sequence of characters.
pub open spec fn opt_view(o: Option<&str>) -> Option<Seq<char>> {
    match o {
        Some(s) => Some(s@),
        None => None,
    }
}

/// An optional owned string as an optional sequence of characters.
pub open spec fn opt_string_view(o: Option<String>) -> Option<Seq<char>> {
    match o {
        Some(s) => Some(s@),
        None => None,
    }
}

impl IntuitiveErrorFormatter {
    fn push_sanitized_bullets(&self, r: &mut String, paths: &Vec<String>, home: Option<&str>, userprofile: Option<&str>)
        ensures
            final(r)@ == old(r)@ + bullets(
                views(paths@).map_values(|p: Seq<char>| sanitized(p, opt_view(home), opt_view(userprofile))),
            ),
    {
        let ghost f = |p: Seq<char>| sanitized(p, opt_view(home), opt_view(userprofile));
        let mut i: usize = 0;
        proof {
            assert(views(paths@).map_values(f).take(0) =~= Seq::<Seq<char>>::empty());
            assert(r@ =~= old(r)@ + bullets(views(paths@).map_values(f).take(0)));
        }
        while i < paths.len()
            invariant
                i <= paths@.len(),
                f == (|p: Seq<char>| sanitized(p, opt_view(home), opt_view(userprofile))),
                r@ == old(r)@ + bullets(views(paths@).map_values(f).take(i as int)),
            decreases paths@.len() - i,
        {
            let safe = self.sanitize_path(paths[i].as_str(), home, userprofile);
            append_str(r, "  • ");
            append_str(r, safe.as_str());
            append_str(r, "\n");
            proof {
                let m = views(paths@).map_values(f);
                assert(m.take(i + 1).drop_last() =~= m.take(i as int));
                assert(m.take(i + 1).last() == safe@);
                assert(r@ =~= old(r)@ + bullets(m.take(i + 1)));
            }
            i = i + 1;
        }
        proof {
            assert(views(paths@).map_values(f).take(paths@.len() as int) =~= views(paths@).map_values(f));
        }
    }

    /// Appends `  ... and N more\n` when `total` exceeds the list limit.
    fn push_more(&self, r: &mut String, total: usize)
        ensures
            final(r)@ == old(r)@ + if total > self.max_list_items {
                "  ... and "@ + decimal((total - self.max_list_items) as nat) + " more\n"@
            } else {
                seq![]
            },
    {
        if total > self.max_list_items {
            append_str(r, "  ... and ");
            let n = usize_to_string(total - self.max_list_items);
            append_str(r, n.as_str());
            append_str(r, " more\n");
        } else {
            assert(r@ =~= old(r)@ + seq![]);
        }
    }

    #[verifier::rlimit(40)]
    fn format_module_not_found_error(
        &self,
        module: &str,
        searched_paths: &Vec<String>,
        available_modules: &Vec<String>,
        suggestions: &Vec<String>,
        home: Option<&str>,
        userprofile: Option<&str>,
    ) -> (r: String)
        ensures
            r@ == module_not_found_text(
                *self,
                module@,
                views(searched_paths@),
                views(available_modules@),
                views(suggestions@),
                opt_view(home),
                opt_view(userprofile),
            ),
    {
        let mut r = owned("Error: Cannot find module '");
        append_str(&mut r, module);
        append_str(&mut r, "'\n");
        let ghost s1 = r@;
        if searched_paths.len() > 0 {
            append_str(&mut r, "\nSearched in:\n");
            self.push_sanitized_bullets(&mut r, searched_paths, home, userprofile);
        }
        let ghost s2 = r@;
        if suggestions.len() > 0 {
            append_str(&mut r, "\nDid you mean:\n");
            push_bullets(&mut r, suggestions, self.max_suggestions);
        }
        let ghost s3 = r@;
        if available_modules.len() > 0 {
            append_str(&mut r, "\nAvailable modules:\n");
            push_bullets(&mut r, available_modules, self.max_list_items);
            self.push_more(&mut r, available_modules.len());
        }
        let ghost s4 = r@;
        append_str(&mut r, "\nHelp:\n");
        append_str(&mut r, "  • Check the module path spelling\n");
        append_str(&mut r, "  • A file in this project imports as `use lib.<name>` (lib/) or `use <name>` (same directory)\n");
        append_str(&mut r, "  • Registered shelf libraries import by name — `otc lib list` shows them, `otc lib add <path>` registers one\n");
        proof {
            let spec_text = module_not_found_text(
                *self,
                module@,
                views(searched_paths@),
                views(available_modules@),
                views(suggestions@),
                opt_view(home),
                opt_view(userprofile),
            );
            assert(r@ =~= spec_text);
        }
        r
    }
}


/// The number of UTF-8 bytes of `s` (what `str::len` returns).
pub fn utf8_byte_len(s: &str) -> (n: u128)
    ensures
        n == utf8_len(s@),
{
    let v = chars_of(s);
    let mut i: usize = 0;
    let mut n: u128 = 0;
    proof {
        assert(s@.take(0) =~= Seq::<char>::empty());
    }
    while i < v.len()
        invariant
            v@ == s@,
            i <= v@.len(),
            n == utf8_len(s@.take(i as int)),
            n <= 4 * i,
        decreases v@.len() - i,
    {
        let c = v[i] as u32;
        let w: u128 = if c < 0x80 {
            1
        } else if c < 0x800 {
            2
        } else if c < 0x10000 {
            3
        } else {
            4
        };
        proof {
            assert(s@.take(i + 1).drop_last() =~= s@.take(i as int));
            assert(s@.take(i + 1).last() == v@[i as int]);
        }
        n = n + w;
        i = i + 1;
    }
    proof {
        assert(s@.take(v@.len() as int) =~= s@);
    }
    n
}

/// Appends `n` copies of `c` to `s`.
fn push_repeated_wide(s: &mut String, c: char, n: u128)
    ensures
        final(s)@ == old(s)@ + repeat_char(c, n as nat),
{
    let mut i: u128 = 0;
    while i < n
        invariant
            i <= n,
            s@ == old(s)@ + repeat_char(c, i as nat),
        decreases n - i,
    {
        crate::text::push_char(s, c);
        i = i + 1;
        assert(s@ =~= old(s)@ + repeat_char(c, i as nat));
    }
}

impl IntuitiveErrorFormatter {
    fn function_not_found_head_text(
        &self,
        function: &str,
        module: &str,
        file_path: &Option<String>,
        home: Option<&str>,
        userprofile: Option<&str>,
    ) -> (r: String)
        ensures
            r@ == function_not_found_head(
                function@,
                utf8_len(function@),
                module@,
                opt_string_view(*file_path),
                opt_view(home),
                opt_view(userprofile),
            ),
    {
        let mut r = owned("Error: Cannot find '");
        append_str(&mut r, function);
        append_str(&mut r, "' in ");
        append_str(&mut r, module);
        append_str(&mut r, "\n");
        let ghost s1 = r@;
        match file_path {
            Some(path) => {
                let safe = self.sanitize_path(path.as_str(), home, userprofile);
                append_str(&mut r, "  --> ");
                append_str(&mut r, safe.as_str());
                append_str(&mut r, "\n");
            },
            None => {},
        }
        let ghost s2 = r@;
        append_str(&mut r, "\nIn import statement:\n");
        append_str(&mut r, "  use ");
        append_str(&mut r, module);
        append_str(&mut r, " { ");
        append_str(&mut r, function);
        append_str(&mut r, " }\n");
        append_str(&mut r, "             ");
        let width = utf8_byte_len(function);
        push_repeated_wide(&mut r, '^', width);
        append_str(&mut r, "\n");
        proof {
            assert(r@ =~= function_not_found_head(
                function@,
                utf8_len(function@),
                module@,
                opt_string_view(*file_path),
                opt_view(home),
                opt_view(userprofile),
            ));
        }
        r
    }

    #[verifier::rlimit(40)]
    fn format_function_not_found_error(
        &self,
        function: &str,
        module: &str,
        available_functions: &Vec<String>,
        suggestions: &Vec<String>,
        file_path: &Option<String>,
        home: Option<&str>,
        userprofile: Option<&str>,
    ) -> (r: String)
        ensures
            r@ == function_not_found_text(
                *self,
                function@,
                utf8_len(function@),
                module@,
                views(available_functions@),
                views(suggestions@),
                opt_string_view(*file_path),
                opt_view(home),
                opt_view(userprofile),
            ),
    {
        let mut r = self.function_not_found_head_text(function, module, file_path, home, userprofile);
        let ghost s1 = r@;
        if suggestions.len() > 0 {
            append_str(&mut r, "\nDid you mean:\n");
            push_bullets(&mut r, suggestions, self.max_suggestions);
        }
        if available_functions.len() > 0 {
            append_str(&mut r, "\nAvailable functions in ");
            append_str(&mut r, module);
            append_str(&mut r, ":\n");
            push_bullets(&mut r, available_functions, self.max_list_items);
            self.push_more(&mut r, available_functions.len());
        }
        proof {
            assert(r@ =~= s1 + function_not_found_lists(*self, module@, views(available_functions@), views(suggestions@)));
        }
        let ghost s2 = r@;
        append_str(&mut r, "\nHelp:\n");
        append_str(&mut r, "  • Check the function name spelling\n");
        append_str(&mut r, "  • Ensure the function is marked with 'share' in the module\n");
        append_str(&mut r, "  • Try: use ");
        append_str(&mut r, module);
        append_str(&mut r, " { available_function_name }\n");
        proof {
            assert(r@ =~= s2 + function_not_found_help(module@));
        }
        r
    }

    fn format_import_error(
        &self,
        file_path: &str,
        line: usize,
        column: &Option<usize>,
        import_path: &str,
        reason: &str,
        suggestions: &Vec<String>,
        home: Option<&str>,
        userprofile: Option<&str>,
    ) -> (r: String)
        ensures
            r@ == import_error_text(
                *self,
                file_path@,
                line,
                *column,
                import_path@,
                reason@,
                views(suggestions@),
                opt_view(home),
                opt_view(userprofile),
            ),
    {
        let safe = self.sanitize_path(file_path, home, userprofile);
        let mut r = owned("Error: Import failed\n");
        append_str(&mut r, "  --> ");
        append_str(&mut r, safe.as_str());
        append_str(&mut r, ":");
        let l = usize_to_string(line);
        append_str(&mut r, l.as_str());
        match column {
            Some(col) => {
                append_str(&mut r, ":");
                let c = usize_to_string(*col);
                append_str(&mut r, c.as_str());
            },
            None => {},
        }
        append_str(&mut r, "\n");
        append_str(&mut r, "\nFailed to import: ");
        append_str(&mut r, import_path);
        append_str(&mut r, "\n");
        append_str(&mut r, "Reason: ");
        append_str(&mut r, reason);
        append_str(&mut r, "\n");
        if suggestions.len() > 0 {
            append_str(&mut r, "\nSuggestions:\n");
            push_bullets(&mut r, suggestions, self.max_suggestions);
        }
        proof {
            assert(r@ =~= import_error_text(
                *self,
                file_path@,
                line,
                *column,
                import_path@,
                reason@,
                views(suggestions@),
                opt_view(home),
                opt_view(userprofile),
            ));
        }
        r
    }

    fn format_type_mismatch_error(
        &self,
        file_path: &str,
        module: &str,
        expected_type: &str,
        actual_type: &str,
        function_name: &Option<String>,
        suggestions: &Vec<String>,
    ) -> (r: String)
        ensures
            r@ == type_mismatch_text(
                file_path@,
                module@,
                expected_type@,
                actual_type@,
                opt_string_view(*function_name),
                views(suggestions@),
            ),
    {
        let mut r = String::new();
        match function_name {
            Some(name) => {
                append_str(&mut r, "Error: Type mismatch in function '");
                append_str(&mut r, name.as_str());
                append_str(&mut r, "'\n");
            },
            None => {
                append_str(&mut r, "Error: Type mismatch\n");
            },
        }
        append_str(&mut r, "  --> ");
        append_str(&mut r, file_path);
        append_str(&mut r, " (from module ");
        append_str(&mut r, module);
        append_str(&mut r, ")\n");
        append_str(&mut r, "\nExpected: ");
        append_str(&mut r, expected_type);
        append_str(&mut r, "\n");
        append_str(&mut r, "Found:    ");
        append_str(&mut r, actual_type);
        append_str(&mut r, "\n");
        if suggestions.len() > 0 {
            append_str(&mut r, "\nSuggestions:\n");
            push_bullets(&mut r, suggestions, suggestions.len());
        }
        proof {
            assert(take_at_most(views(suggestions@), suggestions@.len() as nat) == views(suggestions@));
            assert(r@ =~= type_mismatch_text(
                file_path@,
                module@,
                expected_type@,
                actual_type@,
                opt_string_view(*function_name),
                views(suggestions@),
            ));
        }
        r
    }

    fn format_dependency_chain_error(&self, chain: &Vec<String>, root_error: &str, suggested_fix: &str) -> (r: String)
        ensures
            r@ == dependency_chain_text(views(chain@), root_error@, suggested_fix@),
    {
        let mut r = owned("Error: Dependency chain failure\n\n");
        append_str(&mut r, "Dependency chain:\n");
        let ghost start = r@;
        let mut i: usize = 0;
        while i < chain.len()
            invariant
                i <= chain@.len(),
                r@ == start + chain_lines(views(chain@), i as nat),
            decreases chain@.len() - i,
        {
            if i == chain.len() - 1 {
                append_str(&mut r, "  ");
                append_str(&mut r, "└─");
                append_str(&mut r, " ");
                append_str(&mut r, chain[i].as_str());
                append_str(&mut r, " (error here)\n");
            } else {
                append_str(&mut r, "  ");
                if i == 0 {
                    append_str(&mut r, "┌─");
                } else {
                    append_str(&mut r, "├─");
                }
                append_str(&mut r, " ");
                append_str(&mut r, chain[i].as_str());
                append_str(&mut r, "\n");
            }
            proof {
                assert(views(chain@)[i as int] == chain@[i as int]@);
                assert(r@ =~= start + chain_lines(views(chain@), (i + 1) as nat));
            }
            i = i + 1;
        }
        append_str(&mut r, "\nRoot cause: ");
        append_str(&mut r, root_error);
        append_str(&mut r, "\n");
        append_str(&mut r, "\nSuggested fix: ");
        append_str(&mut r, suggested_fix);
        append_str(&mut r, "\n");
        proof {
            assert(r@ =~= dependency_chain_text(views(chain@), root_error@, suggested_fix@));
        }
        r
    }

    fn format_undefined_variable(&self, name: &str) -> (r: String)
        ensures
            r@ == undefined_variable_text(name@),
    {
        proof {
            reveal_strlit("error");
            reveal_strlit("share");
            reveal_strlit("test");
            reveal_strlit("trait");
        }
        let mut r = owned("Undefined variable: ");
        append_str(&mut r, name);
        let hint: Option<&str> = if crate::text::str_eq(name, "error") {
            Some("`error` declares an error type — `error Name { Variant, WithPayload: { field: Type } }`. A malformed one parses as this variable instead.")
        } else if crate::text::str_eq(name, "share") {
            Some("`share` exports a declaration — `share fn ...`, `share type ...`, or `share use ...`.")
        } else if crate::text::str_eq(name, "test") {
            Some("`test` declares a test block — `test \"name\" { ... }`.")
        } else if crate::text::str_eq(name, "trait") {
            Some("`trait` declares a trait — `trait Name { fn method(self) -> T }`.")
        } else {
            None
        };
        match hint {
            Some(h) => {
                append_str(&mut r, "\n\nHelp:\n  • Did you mean a declaration? ");
                append_str(&mut r, h);
            },
            None => {},
        }
        r
    }
}


/// The text `{:?}` prints for a list of strings.
pub uninterp spec fn debug_list_text(items: Seq<Seq<char>>) -> Seq<char>;

/// The `Debug` rendering of a list of strings (`format!("{:?}", items)`):
/// a bracketed, comma-separated list of quoted, escaped strings.
#[verifier::external_body]
fn debug_list(items: &Vec<String>) -> (r: String)
    ensures
        r@ == debug_list_text(views(items@)),
{
    format!("{:?}", items)
}

/// The one-line text an error displays.
pub open spec fn display_text(e: InterpreterError) -> Seq<char> {
    match e {
        InterpreterError::UndefinedVariable { name } => "Undefined variable: "@ + name@,
        InterpreterError::TypeError { message } => "Type error: "@ + message@,
        InterpreterError::RuntimeError { message } => "Runtime error: "@ + message@,
        InterpreterError::ArityMismatch { expected, got } => "Arity mismatch: expected "@ + decimal(
            expected as nat,
        ) + ", got "@ + decimal(got as nat),
        InterpreterError::PatternMatchFailed => "Pattern match failed"@,
        InterpreterError::BreakSignal(_) => "'break' used outside of a loop"@,
        InterpreterError::ContinueSignal => "'continue' used outside of a loop"@,
        InterpreterError::ReturnSignal(_) => "'return' used outside of a function"@,
        InterpreterError::ErrPropagation(_) => "'?' propagated an Err outside of a function"@,
        InterpreterError::CircularDependencyDetected { cycle_path } => "Circular dependency detected: "@
            + cycle_path@,
        InterpreterError::ModuleNotFound { module_name, .. } => "Module '"@ + module_name@ + "' not found"@,
        InterpreterError::FunctionNotFoundInModule { function_name, module_name, .. } => "Function '"@
            + function_name@ + "' not found in module '"@ + module_name@ + "'"@,
        InterpreterError::ImportError { file_path, line, .. } => "Import error in '"@ + file_path@
            + "' at line "@ + decimal(line as nat),
        InterpreterError::MultiFileTypeMismatch { file_path, module_name, .. } => "Type mismatch in '"@
            + file_path@ + "' from module '"@ + module_name@ + "'"@,
        InterpreterError::DependencyChainError { chain, .. } => "Dependency chain error: "@
            + debug_list_text(views(chain@)),
    }
}

impl InterpreterError {
    /// The one-line text the error displays.
    pub fn message(&self) -> (r: String)
        ensures
            r@ == display_text(*self),
    {
        match self {
            InterpreterError::UndefinedVariable { name } => {
                let mut r = owned("Undefined variable: ");
                append_str(&mut r, name.as_str());
                r
            },
            InterpreterError::TypeError { message } => {
                let mut r = owned("Type error: ");
                append_str(&mut r, message.as_str());
                r
            },
            InterpreterError::RuntimeError { message } => {
                let mut r = owned("Runtime error: ");
                append_str(&mut r, message.as_str());
                r
            },
            InterpreterError::ArityMismatch { expected, got } => {
                let mut r = owned("Arity mismatch: expected ");
                let e = usize_to_string(*expected);
                append_str(&mut r, e.as_str());
                append_str(&mut r, ", got ");
                let g = usize_to_string(*got);
                append_str(&mut r, g.as_str());
                r
            },
            InterpreterError::PatternMatchFailed => owned("Pattern match failed"),
            InterpreterError::BreakSignal(_) => owned("'break' used outside of a loop"),
            InterpreterError::ContinueSignal => owned("'continue' used outside of a loop"),
            InterpreterError::ReturnSignal(_) => owned("'return' used outside of a function"),
            InterpreterError::ErrPropagation(_) => owned("'?' propagated an Err outside of a function"),
            InterpreterError::CircularDependencyDetected { cycle_path } => {
                let mut r = owned("Circular dependency detected: ");
                append_str(&mut r, cycle_path.as_str());
                r
            },
            InterpreterError::ModuleNotFound { module_name, .. } => {
                let mut r = owned("Module '");
                append_str(&mut r, module_name.as_str());
                append_str(&mut r, "' not found");
                r
            },
            InterpreterError::FunctionNotFoundInModule { function_name, module_name, .. } => {
                let mut r = owned("Function '");
                append_str(&mut r, function_name.as_str());
                append_str(&mut r, "' not found in module '");
                append_str(&mut r, module_name.as_str());
                append_str(&mut r, "'");
                r
            },
            InterpreterError::ImportError { file_path, line, .. } => {
                let mut r = owned("Import error in '");
                append_str(&mut r, file_path.as_str());
                append_str(&mut r, "' at line ");
                let l = usize_to_string(*line);
                append_str(&mut r, l.as_str());
                r
            },
            InterpreterError::MultiFileTypeMismatch { file_path, module_name, .. } => {
                let mut r = owned("Type mismatch in '");
                append_str(&mut r, file_path.as_str());
                append_str(&mut r, "' from module '");
                append_str(&mut r, module_name.as_str());
                append_str(&mut r, "'");
                r
            },
            InterpreterError::DependencyChainError { chain, .. } => {
                let mut r = owned("Dependency chain error: ");
                let d = debug_list(chain);
                append_str(&mut r, d.as_str());
                r
            },
        }
    }
}

/// The text the formatter renders for an error: a multi-line explanation
/// for module, import, type-mismatch, dependency-chain and
/// undefined-variable errors, the one-line text for the others.
pub open spec fn formatted_text(
    f: IntuitiveErrorFormatter,
    e: InterpreterError,
    home: Option<Seq<char>>,
    userprofile: Option<Seq<char>>,
) -> Seq<char> {
    match e {
        InterpreterError::ModuleNotFound { module_name, searched_paths, available_modules, suggestions } =>
            module_not_found_text(
            f,
            module_name@,
            views(searched_paths@),
            views(available_modules@),
            views(suggestions@),
            home,
            userprofile,
        ),
        InterpreterError::FunctionNotFoundInModule {
            function_name,
            module_name,
            available_functions,
            suggestions,
            file_path,
        } => function_not_found_text(
            f,
            function_name@,
            utf8_len(function_name@),
            module_name@,
            views(available_functions@),
            views(suggestions@),
            opt_string_view(file_path),
            home,
            userprofile,
        ),
        InterpreterError::ImportError { file_path, line, column, import_path, reason, suggestions } =>
            import_error_text(
            f,
            file_path@,
            line,
            column,
            import_path@,
            reason@,
            views(suggestions@),
            home,
            userprofile,
        ),
        InterpreterError::MultiFileTypeMismatch {
            file_path,
            module_name,
            expected_type,
            actual_type,
            function_name,
            suggestions,
        } => type_mismatch_text(
            file_path@,
            module_name@,
            expected_type@,
            actual_type@,
            opt_string_view(function_name),
            views(suggestions@),
        ),
        InterpreterError::DependencyChainError { chain, root_error, suggested_fix } =>
            dependency_chain_text(views(chain@), root_error@, suggested_fix@),
        InterpreterError::UndefinedVariable { name } => undefined_variable_text(name@),
        _ => display_text(e),
    }
}


impl IntuitiveErrorFormatter {
    /// Formats an error with context and suggestions. In the searched
    /// paths of module-not-found errors and the file paths of
    /// function-not-found and import errors, a path under the home
    /// directory (`home`, else `userprofile`, the values of `HOME` and
    /// `USERPROFILE` when set) is shown with a leading `~`; a type-mismatch
    /// error shows its file path as given.
    pub fn format_error(&self, error: &InterpreterError, home: Option<&str>, userprofile: Option<&str>) -> (r: String)
        ensures
            r@ == formatted_text(*self, *error, opt_view(home), opt_view(userprofile)),
    {
        match error {
            InterpreterError::ModuleNotFound { module_name, searched_paths, available_modules, suggestions } =>
                self.format_module_not_found_error(
                module_name.as_str(),
                searched_paths,
                available_modules,
                suggestions,
                home,
                userprofile,
            ),
            InterpreterError::FunctionNotFoundInModule {
                function_name,
                module_name,
                available_functions,
                suggestions,
                file_path,
            } => self.format_function_not_found_error(
                function_name.as_str(),
                module_name.as_str(),
                available_functions,
                suggestions,
                file_path,
                home,
                userprofile,
            ),
            InterpreterError::ImportError { file_path, line, column, import_path, reason, suggestions } =>
                self.format_import_error(
                file_path.as_str(),
                *line,
                column,
                import_path.as_str(),
                reason.as_str(),
                suggestions,
                home,
                userprofile,
            ),
            InterpreterError::MultiFileTypeMismatch {
                file_path,
                module_name,
                expected_type,
                actual_type,
                function_name,
                suggestions,
            } => self.format_type_mismatch_error(
                file_path.as_str(),
                module_name.as_str(),
                expected_type.as_str(),
                actual_type.as_str(),
                function_name,
                suggestions,
            ),
            InterpreterError::DependencyChainError { chain, root_error, suggested_fix } =>
                self.format_dependency_chain_error(chain, root_error.as_str(), suggested_fix.as_str()),
            InterpreterError::UndefinedVariable { name } => self.format_undefined_variable(name.as_str()),
            _ => error.message(),
        }
    }
}

/// The available names at edit distance exactly `d` from `target`, in order.
pub open spec fn at_distance(target: Seq<char>, avail: Seq<Seq<char>>, d: nat) -> Seq<Seq<char>>
    decreases avail.len(),
{
    if avail.len() == 0 {
        seq![]
    } else {
        let rest = at_distance(target, avail.drop_last(), d);
        if edit_distance(target, avail.last()) == d {
            rest.push(avail.last())
        } else {
            rest
        }
    }
}

/// "Did you mean" suggestions: the available names at distance 1, then 2,
/// then 3 from the target (each group in the order given; identical names
/// and distant ones are not suggested), at most `max` of them.
pub open spec fn suggestions_spec(target: Seq<char>, avail: Seq<Seq<char>>, max: nat) -> Seq<Seq<char>> {
    take_at_most(
        at_distance(target, avail, 1) + at_distance(target, avail, 2) + at_distance(target, avail, 3),
        max,
    )
}

/// Every name at a given distance is one of the available names.
pub proof fn lemma_at_distance_members(target: Seq<char>, avail: Seq<Seq<char>>, d: nat)
    ensures
        forall|i: int| 0 <= i < at_distance(target, avail, d).len() ==> {
            &&& avail.contains(#[trigger] at_distance(target, avail, d)[i])
            &&& edit_distance(target, at_distance(target, avail, d)[i]) == d
        },
        at_distance(target, avail, d).len() <= avail.len(),
    decreases avail.len(),
{
    if avail.len() > 0 {
        lemma_at_distance_members(target, avail.drop_last(), d);
        let rest = at_distance(target, avail.drop_last(), d);
        assert forall|i: int| 0 <= i < rest.len() implies avail.contains(#[trigger] rest[i]) by {
            let k = choose|k: int| 0 <= k < avail.drop_last().len() && avail.drop_last()[k] == rest[i];
            assert(avail[k] == rest[i]);
        }
        assert(avail[avail.len() - 1] == avail.last());
    }
}

/// The law of suggestions: every suggestion is one of the available names,
/// close to the target but not identical to it (distance 1 to 3), there are
/// no more than asked for, and closer names come first.
pub proof fn lemma_suggestions_are_close(target: Seq<char>, avail: Seq<Seq<char>>, max: nat)
    ensures
        suggestions_spec(target, avail, max).len() <= max,
        forall|i: int| 0 <= i < suggestions_spec(target, avail, max).len() ==> {
            &&& avail.contains(#[trigger] suggestions_spec(target, avail, max)[i])
            &&& 1 <= edit_distance(target, suggestions_spec(target, avail, max)[i]) <= 3
        },
        forall|i: int, j: int|
            0 <= i < j < suggestions_spec(target, avail, max).len() ==> edit_distance(
                target,
                #[trigger] suggestions_spec(target, avail, max)[i],
            ) <= edit_distance(target, #[trigger] suggestions_spec(target, avail, max)[j]),
{
    lemma_at_distance_members(target, avail, 1);
    lemma_at_distance_members(target, avail, 2);
    lemma_at_distance_members(target, avail, 3);
    let a = at_distance(target, avail, 1);
    let b = at_distance(target, avail, 2);
    let c = at_distance(target, avail, 3);
    let all = a + b + c;
    assert forall|i: int| 0 <= i < all.len() implies {
        &&& avail.contains(#[trigger] all[i])
        &&& edit_distance(target, all[i]) == if i < a.len() { 1nat } else if i < a.len() + b.len() { 2nat } else { 3nat }
    } by {
        if i < a.len() {
            assert(all[i] == a[i]);
        } else if i < a.len() + b.len() {
            assert(all[i] == b[i - a.len()]);
        } else {
            assert(all[i] == c[i - a.len() - b.len()]);
        }
    }
    let s = suggestions_spec(target, avail, max);
    assert forall|i: int| 0 <= i < s.len() implies s[i] == all[i] by {}
}

impl IntuitiveErrorFormatter {
    /// "Did you mean" suggestions for `target` among `available`: names at
    /// edit distance 1, 2 or 3, closest first (a stable ordering: equally
    /// close names keep their order), at most `max_suggestions` of them.
    pub fn generate_suggestions(&self, target: &str, available: &Vec<String>) -> (r: Vec<String>)
        ensures
            views(r@) == suggestions_spec(target@, views(available@), self.max_suggestions as nat),
    {
        let mut distances: Vec<usize> = Vec::new();
        let mut i: usize = 0;
        while i < available.len()
            invariant
                i <= available@.len(),
                distances@.len() == i,
                forall|k: int| 0 <= k < i ==> distances@[k] == edit_distance(target@, #[trigger] available@[k]@),
            decreases available@.len() - i,
        {
            distances.push(Self::levenshtein_distance(target, available[i].as_str()));
            i = i + 1;
        }
        let mut all: Vec<String> = Vec::new();
        let mut d: usize = 1;
        while d <= 3
            invariant
                1 <= d <= 4,
                distances@.len() == available@.len(),
                forall|k: int| 0 <= k < available@.len() ==> distances@[k] == edit_distance(target@, #[trigger] available@[k]@),
                views(all@) == if d == 1 {
                    seq![]
                } else if d == 2 {
                    at_distance(target@, views(available@), 1)
                } else if d == 3 {
                    at_distance(target@, views(available@), 1) + at_distance(target@, views(available@), 2)
                } else {
                    at_distance(target@, views(available@), 1) + at_distance(target@, views(available@), 2)
                        + at_distance(target@, views(available@), 3)
                },
            decreases 4 - d,
        {
            let ghost before = views(all@);
            let mut k: usize = 0;
            proof {
                assert(views(available@).take(0) =~= Seq::<Seq<char>>::empty());
                assert(views(all@) =~= before + at_distance(target@, views(available@).take(0), d as nat));
            }
            while k < available.len()
                invariant
                    k <= available@.len(),
                    1 <= d <= 3,
                    distances@.len() == available@.len(),
                    forall|q: int| 0 <= q < available@.len() ==> distances@[q] == edit_distance(target@, #[trigger] available@[q]@),
                    views(all@) == before + at_distance(target@, views(available@).take(k as int), d as nat),
                decreases available@.len() - k,
            {
                proof {
                    assert(views(available@).take(k + 1).drop_last() =~= views(available@).take(k as int));
                    assert(views(available@).take(k + 1).last() == available@[k as int]@);
                }
                if distances[k] == d {
                    let ghost b2 = views(all@);
                    all.push(available[k].clone());
                    proof {
                        assert(views(all@) =~= b2.push(available@[k as int]@));
                    }
                }
                proof {
                    assert(views(all@) =~= before + at_distance(target@, views(available@).take(k + 1), d as nat));
                }
                k = k + 1;
            }
            proof {
                assert(views(available@).take(available@.len() as int) =~= views(available@));
            }
            d = d + 1;
        }
        let n = if self.max_suggestions < all.len() { self.max_suggestions } else { all.len() };
        let mut r: Vec<String> = Vec::new();
        let mut j: usize = 0;
        while j < n
            invariant
                j <= n <= all@.len(),
                views(r@) == views(all@).take(j as int),
            decreases n - j,
        {
            let ghost b3 = views(r@);
            r.push(all[j].clone());
            proof {
                assert(views(r@) =~= b3.push(all@[j as int]@));
                assert(views(all@).take(j + 1) =~= views(all@).take(j as int).push(all@[j as int]@));
            }
            j = j + 1;
        }
        proof {
            if self.max_suggestions as nat >= all@.len() {
                assert(views(all@).take(n as int) =~= views(all@));
            }
        }
        r
    }
}

} // verus!
