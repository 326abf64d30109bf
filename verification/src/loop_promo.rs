//! Hot-loop promotion analysis: which free names a loop body reads and
//! which it assigns, so that the remainder of a hot top-level loop can be
//! run as a synthesized function. A body whose control flow would change
//! meaning inside a function (`return`, `?`, `spawn`, `par for`, macro
//! calls, or declarations other than `let`) is refused.

use vstd::prelude::*;
use crate::ast::{Argument, Expr, FieldInit, LetDecl, MapEntry, MatchArm, Parameter, Pattern, Statement, TemplatePart};
use crate::ast::Value;
use crate::environment::{assign_spec, opt_same, same_layers, scope_lookup, Environment, Layer};
use crate::errors::InterpreterError;
use crate::text::{contains_string, owned, views};
use crate::value::copy_string;

verus! {

/// The walker's state, as sets and sequences of names.
pub struct WalkModel {
    pub scopes: Seq<Set<Seq<char>>>,
    pub reads: Seq<Seq<char>>,
    pub writes: Seq<Seq<char>>,
    pub hazard: bool,
}

/// The names held by a list of strings.
pub open spec fn names_of(v: Seq<String>) -> Set<Seq<char>> {
    Set::new(|n: Seq<char>| exists|k: int| 0 <= k < v.len() && (#[trigger] v[k])@ == n)
}

/// Whether `n` is bound in some enclosing scope.
pub open spec fn m_is_local(m: WalkModel, n: Seq<char>) -> bool {
    exists|i: int| 0 <= i < m.scopes.len() && (#[trigger] m.scopes[i]).contains(n)
}

/// Binds `names` in the innermost scope.
pub open spec fn m_declare(m: WalkModel, names: Set<Seq<char>>) -> WalkModel {
    WalkModel { scopes: m.scopes.update(m.scopes.len() - 1, m.scopes.last().union(names)), ..m }
}

/// Records a read of `n` (once, and only of a free name).
pub open spec fn m_read(m: WalkModel, n: Seq<char>) -> WalkModel {
    if !m_is_local(m, n) && !m.reads.contains(n) {
        WalkModel { reads: m.reads.push(n), ..m }
    } else {
        m
    }
}

/// Records a write of `n` (a written free name is also read).
pub open spec fn m_write(m: WalkModel, n: Seq<char>) -> WalkModel {
    if !m_is_local(m, n) {
        let m1 = m_read(m, n);
        if !m1.writes.contains(n) {
            WalkModel { writes: m1.writes.push(n), ..m1 }
        } else {
            m1
        }
    } else {
        m
    }
}

/// Opens a scope.
pub open spec fn m_push(m: WalkModel) -> WalkModel {
    WalkModel { scopes: m.scopes.push(Set::empty()), ..m }
}

/// Closes the innermost scope.
pub open spec fn m_pop(m: WalkModel) -> WalkModel {
    WalkModel { scopes: m.scopes.drop_last(), ..m }
}

/// Marks the body as unsafe to promote.
pub open spec fn m_hazard(m: WalkModel) -> WalkModel {
    WalkModel { hazard: true, ..m }
}

/// The names a pattern binds, in order.
pub open spec fn pattern_names_spec(p: Pattern) -> Seq<Seq<char>>
    decreases p,
{
    match p {
        Pattern::Identifier(n) => seq![n@],
        Pattern::List { patterns, rest } => match rest {
            Some(r) => names_list(patterns@).push(r@),
            None => names_list(patterns@),
        },
        Pattern::Tuple(ps) => names_list(ps@),
        Pattern::EnumVariant { patterns, .. } => names_list(patterns@),
        Pattern::OkPattern(q) => pattern_names_spec(*q),
        Pattern::ErrPattern(q) => pattern_names_spec(*q),
        Pattern::Struct { field_patterns, .. } => names_fields(field_patterns@),
        Pattern::AnonymousStruct { field_patterns } => names_fields(field_patterns@),
        _ => seq![],
    }
}

/// The names a list of patterns binds, in order.
pub open spec fn names_list(ps: Seq<Pattern>) -> Seq<Seq<char>>
    decreases ps,
{
    if ps.len() == 0 {
        seq![]
    } else {
        names_list(ps.drop_last()) + pattern_names_spec(ps.last())
    }
}

/// The names a list of field patterns binds, in order.
pub open spec fn names_fields(fps: Seq<(String, Pattern)>) -> Seq<Seq<char>>
    decreases fps,
{
    if fps.len() == 0 {
        seq![]
    } else {
        names_fields(fps.drop_last()) + pattern_names_spec(fps.last().1)
    }
}

/// Walks `declare`-bound scope over `body`.
pub open spec fn walk_scoped_spec(m: WalkModel, declare: Set<Seq<char>>, body: Expr) -> WalkModel
    decreases body, 1nat,
{
    m_pop(walk_spec(m_declare(m_push(m), declare), body))
}

/// The walk of an expression.
pub open spec fn walk_spec(m: WalkModel, e: Expr) -> WalkModel
    decreases e, 0nat,
{
    if m.hazard {
        m
    } else {
        match e {
            Expr::Integer(_) | Expr::Float(_) | Expr::String(_) | Expr::Boolean(_) | Expr::RawString(_)
            | Expr::Continue => m,
            Expr::Identifier(n) => m_read(m, n@),
            Expr::LocalRef { name, .. } => m_read(m, name@),
            Expr::LocalAssign { name, value, .. } => m_write(walk_spec(m, *value), name@),
            Expr::Assignment { target, value } => m_write(walk_spec(m, *value), target@),
            Expr::List(items) => walk_list(m, items@),
            Expr::Tuple(items) => walk_list(m, items@),
            Expr::Call { callee, arguments } => walk_args(walk_spec(m, *callee), arguments@),
            Expr::Lambda { parameters, body } => walk_scoped_spec(
                walk_defaults(m, parameters@),
                param_names(parameters@).to_set(),
                *body,
            ),
            Expr::Pipeline { left, right } => walk_spec(walk_spec(m, *left), *right),
            Expr::Match { value, arms } => walk_arms(walk_spec(m, *value), arms@),
            Expr::If { condition, then_branch, else_branch } => {
                let m2 = walk_spec(walk_spec(m, *condition), *then_branch);
                match else_branch {
                    Some(eb) => walk_spec(m2, *eb),
                    None => m2,
                }
            },
            Expr::Range { start, end, .. } => walk_spec(walk_spec(m, *start), *end),
            Expr::Block(stmts) => m_pop(walk_stmts(m_push(m), stmts@)),
            Expr::BinaryOp { left, right, .. } => walk_spec(walk_spec(m, *left), *right),
            Expr::BitwiseOp { left, right, .. } => walk_spec(walk_spec(m, *left), *right),
            Expr::UnaryOp { operand, .. } => walk_spec(m, *operand),
            Expr::StructLiteral(sl) => walk_fields(m, sl.fields@),
            Expr::AnonymousObject { fields } => walk_fields(m, fields@),
            Expr::MapLiteral { entries } => walk_entries(m, entries@),
            Expr::FieldAccess { object, .. } => walk_spec(m, *object),
            Expr::ResultOk(x) => walk_spec(m, *x),
            Expr::ResultErr(x) => walk_spec(m, *x),
            Expr::Spread(x) => walk_spec(m, *x),
            Expr::Rest(x) => walk_spec(m, *x),
            Expr::ForLoop { variable, iterable, body } => walk_scoped_spec(
                walk_spec(m, *iterable),
                set![variable@],
                *body,
            ),
            Expr::WhileLoop { condition, body } => walk_scoped_spec(
                walk_spec(m, *condition),
                Set::empty(),
                *body,
            ),
            Expr::Loop { body } => walk_scoped_spec(m, Set::empty(), *body),
            Expr::Break(v) => match v {
                Some(x) => walk_spec(m, *x),
                None => m,
            },
            Expr::Index { object, index } => walk_spec(walk_spec(m, *object), *index),
            Expr::TemplateString { parts } => walk_parts(m, parts@),
            Expr::AssertEq { actual, expected, .. } => walk_spec(walk_spec(m, *actual), *expected),
            Expr::AssertNe { actual, expected, .. } => walk_spec(walk_spec(m, *actual), *expected),
            Expr::Assert { condition, .. } => walk_spec(m, *condition),
            Expr::AssertTrue { expression, .. } => walk_spec(m, *expression),
            Expr::AssertFalse { expression, .. } => walk_spec(m, *expression),
            Expr::Return(_) | Expr::Try(_) | Expr::Spawn(_) | Expr::ParForLoop { .. }
            | Expr::MacroCall { .. } => m_hazard(m),
        }
    }
}

/// The names of a parameter list.
pub open spec fn param_names(ps: Seq<Parameter>) -> Seq<Seq<char>> {
    ps.map_values(|p: Parameter| p.name@)
}

/// Walks expressions left to right.
pub open spec fn walk_list(m: WalkModel, es: Seq<Expr>) -> WalkModel
    decreases es,
{
    if es.len() == 0 {
        m
    } else {
        walk_spec(walk_list(m, es.drop_last()), es.last())
    }
}

/// Walks call arguments left to right.
pub open spec fn walk_args(m: WalkModel, args: Seq<Argument>) -> WalkModel
    decreases args,
{
    if args.len() == 0 {
        m
    } else {
        let m1 = walk_args(m, args.drop_last());
        match args.last() {
            Argument::Positional(e) => walk_spec(m1, e),
            Argument::Named { value, .. } => walk_spec(m1, value),
        }
    }
}

/// Walks the default values of parameters left to right.
pub open spec fn walk_defaults(m: WalkModel, ps: Seq<Parameter>) -> WalkModel
    decreases ps,
{
    if ps.len() == 0 {
        m
    } else {
        let m1 = walk_defaults(m, ps.drop_last());
        match ps.last().default_value {
            Some(d) => walk_spec(m1, d),
            None => m1,
        }
    }
}

/// Walks one match arm in a scope binding the arm pattern's names.
pub open spec fn walk_arm(m: WalkModel, arm: MatchArm) -> WalkModel
    decreases arm,
{
    let m1 = m_declare(m_push(m), pattern_names_spec(arm.pattern).to_set());
    let m2 = match arm.guard {
        Some(g) => walk_spec(m1, g),
        None => m1,
    };
    m_pop(walk_spec(m2, arm.expression))
}

/// Walks match arms in order.
pub open spec fn walk_arms(m: WalkModel, arms: Seq<MatchArm>) -> WalkModel
    decreases arms,
{
    if arms.len() == 0 {
        m
    } else {
        walk_arm(walk_arms(m, arms.drop_last()), arms.last())
    }
}

/// Walks field initializers in order.
pub open spec fn walk_fields(m: WalkModel, fs: Seq<FieldInit>) -> WalkModel
    decreases fs,
{
    if fs.len() == 0 {
        m
    } else {
        walk_spec(walk_fields(m, fs.drop_last()), fs.last().value)
    }
}

/// Walks map entries (key, then value) in order.
pub open spec fn walk_entries(m: WalkModel, es: Seq<MapEntry>) -> WalkModel
    decreases es,
{
    if es.len() == 0 {
        m
    } else {
        walk_spec(walk_spec(walk_entries(m, es.drop_last()), es.last().key), es.last().value)
    }
}

/// Walks the interpolations of a template string in order.
pub open spec fn walk_parts(m: WalkModel, ps: Seq<TemplatePart>) -> WalkModel
    decreases ps,
{
    if ps.len() == 0 {
        m
    } else {
        let m1 = walk_parts(m, ps.drop_last());
        match ps.last() {
            TemplatePart::Interpolation(e) => walk_spec(m1, e),
            TemplatePart::Literal(_) => m1,
        }
    }
}

/// Walks a statement.
pub open spec fn walk_stmt_spec(m: WalkModel, s: Statement) -> WalkModel
    decreases s,
{
    if m.hazard {
        m
    } else {
        match s {
            Statement::Located { stmt, .. } => walk_stmt_spec(m, *stmt),
            Statement::Expression(e) => walk_spec(m, e),
            Statement::LetDecl(ld) => {
                let m1 = match ld.value {
                    Some(v) => walk_spec(m, v),
                    None => m,
                };
                m_declare(m1, pattern_names_spec(ld.pattern).to_set())
            },
            _ => m_hazard(m),
        }
    }
}

/// Walks statements in order.
pub open spec fn walk_stmts(m: WalkModel, ss: Seq<Statement>) -> WalkModel
    decreases ss,
{
    if ss.len() == 0 {
        m
    } else {
        walk_stmt_spec(walk_stmts(m, ss.drop_last()), ss.last())
    }
}


/// No name occurs twice.
pub open spec fn distinct(s: Seq<Seq<char>>) -> bool {
    forall|i: int, j: int| 0 <= i < j < s.len() ==> s[i] != s[j]
}

/// The properties every walk keeps: reads and writes are recorded once
/// each, every written name is also read, and no name bound in the
/// outermost scope (the loop variable) is ever recorded as read.
pub open spec fn walk_inv(m: WalkModel) -> bool {
    &&& m.scopes.len() >= 1
    &&& distinct(m.reads)
    &&& distinct(m.writes)
    &&& forall|w: Seq<char>| m.writes.contains(w) ==> m.reads.contains(w)
    &&& forall|n: Seq<char>| m.scopes[0].contains(n) ==> !m.reads.contains(n)
}

/// What a loop body touches, in first-seen order: free names it reads
/// (module functions included; the caller filters), and free names it
/// assigns.
pub struct BodyFacts {
    pub reads: Vec<String>,
    pub writes: Vec<String>,
}

/// The body walker's state: a stack of scopes of bound names, the free
/// names read and written so far, and whether a construct that must not
/// be promoted was seen.
pub struct Walker {
    scopes: Vec<Vec<String>>,
    reads: Vec<String>,
    writes: Vec<String>,
    hazard: bool,
}

impl Walker {
    /// The walker's state as sets and sequences of names.
    pub closed spec fn model(&self) -> WalkModel {
        WalkModel {
            scopes: Seq::new(self.scopes@.len(), |i: int| names_of(self.scopes@[i]@)),
            reads: views(self.reads@),
            writes: views(self.writes@),
            hazard: self.hazard,
        }
    }

    /// Whether `name` is bound in some enclosing scope.
    fn is_local(&self, name: &String) -> (r: bool)
        ensures
            r == m_is_local(self.model(), name@),
    {
        let mut i: usize = 0;
        while i < self.scopes.len()
            invariant
                i <= self.scopes@.len(),
                forall|k: int| 0 <= k < i ==> !(#[trigger] self.model().scopes[k]).contains(name@),
            decreases self.scopes@.len() - i,
        {
            let scope = &self.scopes[i];
            let mut j: usize = 0;
            while j < scope.len()
                invariant
                    j <= scope@.len(),
                    i < self.scopes@.len(),
                    *scope == self.scopes@[i as int],
                    forall|k: int| 0 <= k < j ==> (#[trigger] scope@[k])@ != name@,
                decreases scope@.len() - j,
            {
                if scope[j] == *name {
                    assert(scope@[j as int]@ == name@);
                    assert(names_of(self.scopes@[i as int]@).contains(name@));
                    assert(self.model().scopes[i as int].contains(name@));
                    return true;
                }
                j = j + 1;
            }
            assert(!self.model().scopes[i as int].contains(name@));
            i = i + 1;
        }
        false
    }

    /// Binds `name` in the innermost scope.
    fn declare(&mut self, name: &String)
        requires
            old(self).model().scopes.len() >= 1,
        ensures
            final(self).model() == m_declare(old(self).model(), set![name@]),
    {
        let last = self.scopes.len() - 1;
        let ghost old_model = self.model();
        let ghost old_scopes = self.scopes@;
        let mut scope = self.scopes.pop().unwrap();
        let ghost old_scope = scope@;
        scope.push(copy_string(name));
        self.scopes.push(scope);
        assert(self.scopes@ =~= old_scopes.update(last as int, self.scopes@[last as int]));
        proof {
            assert(names_of(self.scopes@[last as int]@) =~= names_of(old_scope).union(set![name@])) by {
                assert forall|n: Seq<char>| names_of(old_scope).union(set![name@]).contains(n)
                    implies names_of(self.scopes@[last as int]@).contains(n) by {
                    if n == name@ {
                        assert(self.scopes@[last as int]@[old_scope.len() as int]@ == n);
                    } else {
                        let k = choose|k: int| 0 <= k < old_scope.len() && (#[trigger] old_scope[k])@ == n;
                        assert(self.scopes@[last as int]@[k]@ == n);
                    }
                }
            }
            assert(self.model().scopes =~= m_declare(old_model, set![name@]).scopes);
        }
    }

    /// Records a read of `name` (once, and only of a free name).
    fn read(&mut self, name: &String)
        ensures
            final(self).model() == m_read(old(self).model(), name@),
            final(self).scopes@ == old(self).scopes@,
    {
        if !self.is_local(name) && !contains_string(&self.reads, name) {
            let ghost old_model = self.model();
            self.reads.push(copy_string(name));
            proof {
                assert(views(self.reads@) =~= old_model.reads.push(name@));
                assert(self.model().scopes =~= old_model.scopes);
            }
        }
    }

    /// Records a write of `name`; a written free name is also read, since
    /// the remainder may read-modify it and its current value must arrive.
    fn write(&mut self, name: &String)
        ensures
            final(self).model() == m_write(old(self).model(), name@),
            final(self).scopes@ == old(self).scopes@,
    {
        if !self.is_local(name) {
            self.read(name);
            if !contains_string(&self.writes, name) {
                let ghost old_model = self.model();
                self.writes.push(copy_string(name));
                proof {
                    assert(views(self.writes@) =~= old_model.writes.push(name@));
                    assert(self.model().scopes =~= old_model.scopes);
                }
            }
        }
    }
}


/// Whether `m2` differs from `m1` at most in its innermost scope.
pub open spec fn same_outer_scopes(m1: WalkModel, m2: WalkModel) -> bool {
    m1.scopes.len() == m2.scopes.len() && m1.scopes.drop_last() == m2.scopes.drop_last()
}

impl Walker {
    /// Binds every name of `names` in the innermost scope.
    fn declare_all(&mut self, names: &Vec<String>)
        requires
            old(self).model().scopes.len() >= 1,
        ensures
            final(self).model() == m_declare(old(self).model(), views(names@).to_set()),
    {
        let ghost m0 = self.model();
        let mut i: usize = 0;
        proof {
            assert(views(names@).take(0).to_set() =~= Set::<Seq<char>>::empty());
            assert(m0.scopes.last().union(Set::empty()) =~= m0.scopes.last());
            assert(m0.scopes.update(m0.scopes.len() - 1, m0.scopes.last()) =~= m0.scopes);
        }
        while i < names.len()
            invariant
                i <= names@.len(),
                m0.scopes.len() >= 1,
                self.model() == m_declare(m0, views(names@).take(i as int).to_set()),
            decreases names@.len() - i,
        {
            let ghost before = self.model();
            self.declare(&names[i]);
            proof {
                let a = views(names@).take(i as int).to_set();
                let b = views(names@).take(i + 1).to_set();
                assert(views(names@).take(i + 1) =~= views(names@).take(i as int).push(names@[i as int]@));
                lemma_push_to_set(views(names@).take(i as int), names@[i as int]@);
                assert(b =~= a.insert(names@[i as int]@));
                assert(before.scopes.last() == m0.scopes.last().union(a));
                assert(before.scopes.last().union(set![names@[i as int]@]) =~= m0.scopes.last().union(b));
                assert(self.model().scopes =~= m_declare(m0, b).scopes);
            }
            i = i + 1;
        }
        proof {
            assert(views(names@).take(names@.len() as int) =~= views(names@));
        }
    }

    /// The names a pattern binds, in order, appended to `out`.
    fn pattern_names(p: &Pattern, out: &mut Vec<String>)
        ensures
            views(final(out)@) == views(old(out)@) + pattern_names_spec(*p),
        decreases p,
    {
        match p {
            Pattern::Identifier(n) => {
                out.push(copy_string(n));
                assert(views(out@) =~= views(old(out)@) + seq![n@]);
            },
            Pattern::List { patterns, rest } => {
                Self::names_of_patterns(patterns, out);
                match rest {
                    Some(r) => {
                        let ghost before = out@;
                        out.push(copy_string(r));
                        assert(views(out@) =~= views(before).push(r@));
                    },
                    None => {},
                }
            },
            Pattern::Tuple(ps) => Self::names_of_patterns(ps, out),
            Pattern::EnumVariant { patterns, .. } => Self::names_of_patterns(patterns, out),
            Pattern::OkPattern(q) => Self::pattern_names(q, out),
            Pattern::ErrPattern(q) => Self::pattern_names(q, out),
            Pattern::Struct { field_patterns, .. } => Self::names_of_field_patterns(field_patterns, out),
            Pattern::AnonymousStruct { field_patterns } => Self::names_of_field_patterns(field_patterns, out),
            _ => {
                assert(views(out@) =~= views(old(out)@) + seq![]);
            },
        }
    }

    fn names_of_patterns(ps: &Vec<Pattern>, out: &mut Vec<String>)
        ensures
            views(final(out)@) == views(old(out)@) + names_list(ps@),
        decreases ps,
    {
        let mut i: usize = 0;
        proof {
            assert(views(out@) =~= views(old(out)@) + names_list(ps@.take(0)));
        }
        while i < ps.len()
            invariant
                i <= ps@.len(),
                views(out@) == views(old(out)@) + names_list(ps@.take(i as int)),
            decreases ps@.len() - i,
        {
            proof {
                vstd::std_specs::vec::axiom_vec_index_decreases(*ps, i as int);
                assert(ps@.take(i + 1).drop_last() =~= ps@.take(i as int));
            }
            let ghost before = views(out@);
            Self::pattern_names(&ps[i], out);
            proof {
                assert(views(out@) =~= views(old(out)@) + names_list(ps@.take(i + 1)));
            }
            i = i + 1;
        }
        proof {
            assert(ps@.take(ps@.len() as int) =~= ps@);
        }
    }

    fn names_of_field_patterns(fps: &Vec<(String, Pattern)>, out: &mut Vec<String>)
        ensures
            views(final(out)@) == views(old(out)@) + names_fields(fps@),
        decreases fps,
    {
        let mut i: usize = 0;
        proof {
            assert(views(out@) =~= views(old(out)@) + names_fields(fps@.take(0)));
        }
        while i < fps.len()
            invariant
                i <= fps@.len(),
                views(out@) == views(old(out)@) + names_fields(fps@.take(i as int)),
            decreases fps@.len() - i,
        {
            proof {
                vstd::std_specs::vec::axiom_vec_index_decreases(*fps, i as int);
                assert(fps@.take(i + 1).drop_last() =~= fps@.take(i as int));
            }
            Self::pattern_names(&fps[i].1, out);
            proof {
                assert(views(out@) =~= views(old(out)@) + names_fields(fps@.take(i + 1)));
            }
            i = i + 1;
        }
        proof {
            assert(fps@.take(fps@.len() as int) =~= fps@);
        }
    }

    /// Opens a scope.
    fn push_scope(&mut self)
        ensures
            final(self).model() == m_push(old(self).model()),
    {
        let ghost m0 = self.model();
        self.scopes.push(Vec::new());
        proof {
            assert(names_of(Seq::<String>::empty()) =~= Set::<Seq<char>>::empty());
            assert(self.model().scopes =~= m0.scopes.push(Set::empty()));
        }
    }

    /// Closes the innermost scope.
    fn pop_scope(&mut self)
        requires
            old(self).model().scopes.len() >= 1,
        ensures
            final(self).model() == m_pop(old(self).model()),
    {
        let ghost m0 = self.model();
        let _ = self.scopes.pop();
        proof {
            assert(self.model().scopes =~= m0.scopes.drop_last());
        }
    }

    /// Walks `body` in a fresh scope binding `declare`.
    fn walk_scoped(&mut self, declare: &Vec<String>, body: &Expr)
        requires
            old(self).model().scopes.len() >= 1,
        ensures
            final(self).model() == walk_scoped_spec(old(self).model(), views(declare@).to_set(), *body),
            final(self).model().scopes == old(self).model().scopes,
            walk_inv(old(self).model()) ==> walk_inv(final(self).model()),
        decreases body, 1nat,
    {
        let ghost m0 = self.model();
        self.push_scope();
        self.declare_all(declare);
        let ghost m1 = self.model();
        proof {
            assert(m1.scopes[0] == m0.scopes[0]);
        }
        self.walk(body);
        self.pop_scope();
        proof {
            assert(self.model().scopes =~= m0.scopes);
        }
    }

    /// Walks an expression.
    fn walk(&mut self, e: &Expr)
        requires
            old(self).model().scopes.len() >= 1,
        ensures
            final(self).model() == walk_spec(old(self).model(), *e),
            final(self).model().scopes == old(self).model().scopes,
            walk_inv(old(self).model()) ==> walk_inv(final(self).model()),
        decreases e, 0nat,
    {
        if self.hazard {
            return;
        }
        match e {
            Expr::Integer(_) | Expr::Float(_) | Expr::String(_) | Expr::Boolean(_) | Expr::RawString(_)
            | Expr::Continue => {},
            Expr::Identifier(n) => {
                proof {
                    lemma_read_keeps_inv(self.model(), n@);
                }
                self.read(n);
            },
            Expr::LocalRef { name, .. } => {
                proof {
                    lemma_read_keeps_inv(self.model(), name@);
                }
                self.read(name);
            },
            Expr::LocalAssign { name, value, .. } => {
                self.walk(value);
                proof {
                    lemma_write_keeps_inv(self.model(), name@);
                }
                self.write(name);
            },
            Expr::Assignment { target, value } => {
                self.walk(value);
                proof {
                    lemma_write_keeps_inv(self.model(), target@);
                }
                self.write(target);
            },
            Expr::List(items) => self.walk_exprs(items),
            Expr::Tuple(items) => self.walk_exprs(items),
            Expr::Call { callee, arguments } => {
                self.walk(callee);
                self.walk_arguments(arguments);
            },
            Expr::Lambda { parameters, body } => {
                let mut names: Vec<String> = Vec::new();
                let mut i: usize = 0;
                while i < parameters.len()
                    invariant
                        i <= parameters@.len(),
                        views(names@) == param_names(parameters@.take(i as int)),
                    decreases parameters@.len() - i,
                {
                    let ghost before = names@;
                    names.push(copy_string(&parameters[i].name));
                    proof {
                        assert(parameters@.take(i + 1) =~= parameters@.take(i as int).push(parameters@[i as int]));
                        assert(param_names(parameters@.take(i + 1)) =~= param_names(parameters@.take(i as int)).push(parameters@[i as int].name@));
                        assert(views(names@) =~= views(before).push(parameters@[i as int].name@));
                    }
                    i = i + 1;
                }
                proof {
                    assert(parameters@.take(parameters@.len() as int) =~= parameters@);
                }
                self.walk_parameter_defaults(parameters);
                self.walk_scoped(&names, body);
            },
            Expr::Pipeline { left, right } => {
                self.walk(left);
                self.walk(right);
            },
            Expr::Match { value, arms } => {
                self.walk(value);
                self.walk_match_arms(arms);
            },
            Expr::If { condition, then_branch, else_branch } => {
                self.walk(condition);
                self.walk(then_branch);
                match else_branch {
                    Some(eb) => self.walk(eb),
                    None => {},
                }
            },
            Expr::Range { start, end, .. } => {
                self.walk(start);
                self.walk(end);
            },
            Expr::Block(stmts) => {
                let ghost m0 = self.model();
                self.push_scope();
                self.walk_statements(stmts);
                self.pop_scope();
                proof {
                    assert(self.model().scopes =~= m0.scopes);
                }
            },
            Expr::BinaryOp { left, right, .. } => {
                self.walk(left);
                self.walk(right);
            },
            Expr::BitwiseOp { left, right, .. } => {
                self.walk(left);
                self.walk(right);
            },
            Expr::UnaryOp { operand, .. } => self.walk(operand),
            Expr::StructLiteral(sl) => self.walk_field_inits(&sl.fields),
            Expr::AnonymousObject { fields } => self.walk_field_inits(fields),
            Expr::MapLiteral { entries } => self.walk_map_entries(entries),
            Expr::FieldAccess { object, .. } => self.walk(object),
            Expr::ResultOk(x) => self.walk(x),
            Expr::ResultErr(x) => self.walk(x),
            Expr::Spread(x) => self.walk(x),
            Expr::Rest(x) => self.walk(x),
            Expr::ForLoop { variable, iterable, body } => {
                self.walk(iterable);
                let mut names: Vec<String> = Vec::new();
                names.push(copy_string(variable));
                proof {
                    assert(views(names@) =~= seq![variable@]);
                    lemma_push_to_set(Seq::<Seq<char>>::empty(), variable@);
                    assert(Seq::<Seq<char>>::empty().push(variable@) =~= seq![variable@]);
                    assert(Seq::<Seq<char>>::empty().to_set() =~= Set::<Seq<char>>::empty());
                    assert(views(names@).to_set() =~= set![variable@]);
                }
                self.walk_scoped(&names, body);
            },
            Expr::WhileLoop { condition, body } => {
                self.walk(condition);
                let names: Vec<String> = Vec::new();
                proof {
                    assert(views(names@).to_set() =~= Set::<Seq<char>>::empty());
                }
                self.walk_scoped(&names, body);
            },
            Expr::Loop { body } => {
                let names: Vec<String> = Vec::new();
                proof {
                    assert(views(names@).to_set() =~= Set::<Seq<char>>::empty());
                }
                self.walk_scoped(&names, body);
            },
            Expr::Break(v) => match v {
                Some(x) => self.walk(x),
                None => {},
            },
            Expr::Index { object, index } => {
                self.walk(object);
                self.walk(index);
            },
            Expr::TemplateString { parts } => self.walk_template_parts(parts),
            Expr::AssertEq { actual, expected, .. } => {
                self.walk(actual);
                self.walk(expected);
            },
            Expr::AssertNe { actual, expected, .. } => {
                self.walk(actual);
                self.walk(expected);
            },
            Expr::Assert { condition, .. } => self.walk(condition),
            Expr::AssertTrue { expression, .. } => self.walk(expression),
            Expr::AssertFalse { expression, .. } => self.walk(expression),
            Expr::Return(_) | Expr::Try(_) | Expr::Spawn(_) | Expr::ParForLoop { .. }
            | Expr::MacroCall { .. } => {
                self.hazard = true;
            },
        }
    }

    fn walk_exprs(&mut self, es: &Vec<Expr>)
        requires
            old(self).model().scopes.len() >= 1,
        ensures
            final(self).model() == walk_list(old(self).model(), es@),
            final(self).model().scopes == old(self).model().scopes,
            walk_inv(old(self).model()) ==> walk_inv(final(self).model()),
        decreases es,
    {
        let ghost m0 = self.model();
        let mut i: usize = 0;
        proof {
            assert(es@.take(0) =~= Seq::<Expr>::empty());
        }
        while i < es.len()
            invariant
                i <= es@.len(),
                self.model() == walk_list(m0, es@.take(i as int)),
                self.model().scopes == m0.scopes,
                m0.scopes.len() >= 1,
                walk_inv(m0) ==> walk_inv(self.model()),
            decreases es@.len() - i,
        {
            proof {
                vstd::std_specs::vec::axiom_vec_index_decreases(*es, i as int);
                assert(es@.take(i + 1).drop_last() =~= es@.take(i as int));
            }
            self.walk(&es[i]);
            i = i + 1;
        }
        proof {
            assert(es@.take(es@.len() as int) =~= es@);
        }
    }

    fn walk_arguments(&mut self, args: &Vec<Argument>)
        requires
            old(self).model().scopes.len() >= 1,
        ensures
            final(self).model() == walk_args(old(self).model(), args@),
            final(self).model().scopes == old(self).model().scopes,
            walk_inv(old(self).model()) ==> walk_inv(final(self).model()),
        decreases args,
    {
        let ghost m0 = self.model();
        let mut i: usize = 0;
        proof {
            assert(args@.take(0) =~= Seq::<Argument>::empty());
        }
        while i < args.len()
            invariant
                i <= args@.len(),
                self.model() == walk_args(m0, args@.take(i as int)),
                self.model().scopes == m0.scopes,
                m0.scopes.len() >= 1,
                walk_inv(m0) ==> walk_inv(self.model()),
            decreases args@.len() - i,
        {
            proof {
                vstd::std_specs::vec::axiom_vec_index_decreases(*args, i as int);
                assert(args@.take(i + 1).drop_last() =~= args@.take(i as int));
            }
            match &args[i] {
                Argument::Positional(e) => self.walk(e),
                Argument::Named { value, .. } => self.walk(value),
            }
            i = i + 1;
        }
        proof {
            assert(args@.take(args@.len() as int) =~= args@);
        }
    }

    fn walk_parameter_defaults(&mut self, ps: &Vec<Parameter>)
        requires
            old(self).model().scopes.len() >= 1,
        ensures
            final(self).model() == walk_defaults(old(self).model(), ps@),
            final(self).model().scopes == old(self).model().scopes,
            walk_inv(old(self).model()) ==> walk_inv(final(self).model()),
        decreases ps,
    {
        let ghost m0 = self.model();
        let mut i: usize = 0;
        proof {
            assert(ps@.take(0) =~= Seq::<Parameter>::empty());
        }
        while i < ps.len()
            invariant
                i <= ps@.len(),
                self.model() == walk_defaults(m0, ps@.take(i as int)),
                self.model().scopes == m0.scopes,
                m0.scopes.len() >= 1,
                walk_inv(m0) ==> walk_inv(self.model()),
            decreases ps@.len() - i,
        {
            proof {
                vstd::std_specs::vec::axiom_vec_index_decreases(*ps, i as int);
                assert(ps@.take(i + 1).drop_last() =~= ps@.take(i as int));
            }
            match &ps[i].default_value {
                Some(d) => self.walk(d),
                None => {},
            }
            i = i + 1;
        }
        proof {
            assert(ps@.take(ps@.len() as int) =~= ps@);
        }
    }

    fn walk_match_arm(&mut self, arm: &MatchArm)
        requires
            old(self).model().scopes.len() >= 1,
        ensures
            final(self).model() == walk_arm(old(self).model(), *arm),
            final(self).model().scopes == old(self).model().scopes,
            walk_inv(old(self).model()) ==> walk_inv(final(self).model()),
        decreases arm,
    {
        let ghost m0 = self.model();
        let mut names: Vec<String> = Vec::new();
        Self::pattern_names(&arm.pattern, &mut names);
        proof {
            assert(views(names@) =~= pattern_names_spec(arm.pattern));
        }
        self.push_scope();
        self.declare_all(&names);
        proof {
            assert(self.model().scopes[0] == m0.scopes[0]);
        }
        match &arm.guard {
            Some(g) => self.walk(g),
            None => {},
        }
        self.walk(&arm.expression);
        self.pop_scope();
        proof {
            assert(self.model().scopes =~= m0.scopes);
        }
    }

    fn walk_match_arms(&mut self, arms: &Vec<MatchArm>)
        requires
            old(self).model().scopes.len() >= 1,
        ensures
            final(self).model() == walk_arms(old(self).model(), arms@),
            final(self).model().scopes == old(self).model().scopes,
            walk_inv(old(self).model()) ==> walk_inv(final(self).model()),
        decreases arms,
    {
        let ghost m0 = self.model();
        let mut i: usize = 0;
        proof {
            assert(arms@.take(0) =~= Seq::<MatchArm>::empty());
        }
        while i < arms.len()
            invariant
                i <= arms@.len(),
                self.model() == walk_arms(m0, arms@.take(i as int)),
                self.model().scopes == m0.scopes,
                m0.scopes.len() >= 1,
                walk_inv(m0) ==> walk_inv(self.model()),
            decreases arms@.len() - i,
        {
            proof {
                vstd::std_specs::vec::axiom_vec_index_decreases(*arms, i as int);
                assert(arms@.take(i + 1).drop_last() =~= arms@.take(i as int));
            }
            self.walk_match_arm(&arms[i]);
            i = i + 1;
        }
        proof {
            assert(arms@.take(arms@.len() as int) =~= arms@);
        }
    }

    fn walk_field_inits(&mut self, fs: &Vec<FieldInit>)
        requires
            old(self).model().scopes.len() >= 1,
        ensures
            final(self).model() == walk_fields(old(self).model(), fs@),
            final(self).model().scopes == old(self).model().scopes,
            walk_inv(old(self).model()) ==> walk_inv(final(self).model()),
        decreases fs,
    {
        let ghost m0 = self.model();
        let mut i: usize = 0;
        proof {
            assert(fs@.take(0) =~= Seq::<FieldInit>::empty());
        }
        while i < fs.len()
            invariant
                i <= fs@.len(),
                self.model() == walk_fields(m0, fs@.take(i as int)),
                self.model().scopes == m0.scopes,
                m0.scopes.len() >= 1,
                walk_inv(m0) ==> walk_inv(self.model()),
            decreases fs@.len() - i,
        {
            proof {
                vstd::std_specs::vec::axiom_vec_index_decreases(*fs, i as int);
                assert(fs@.take(i + 1).drop_last() =~= fs@.take(i as int));
            }
            self.walk(&fs[i].value);
            i = i + 1;
        }
        proof {
            assert(fs@.take(fs@.len() as int) =~= fs@);
        }
    }

    fn walk_map_entries(&mut self, es: &Vec<MapEntry>)
        requires
            old(self).model().scopes.len() >= 1,
        ensures
            final(self).model() == walk_entries(old(self).model(), es@),
            final(self).model().scopes == old(self).model().scopes,
            walk_inv(old(self).model()) ==> walk_inv(final(self).model()),
        decreases es,
    {
        let ghost m0 = self.model();
        let mut i: usize = 0;
        proof {
            assert(es@.take(0) =~= Seq::<MapEntry>::empty());
        }
        while i < es.len()
            invariant
                i <= es@.len(),
                self.model() == walk_entries(m0, es@.take(i as int)),
                self.model().scopes == m0.scopes,
                m0.scopes.len() >= 1,
                walk_inv(m0) ==> walk_inv(self.model()),
            decreases es@.len() - i,
        {
            proof {
                vstd::std_specs::vec::axiom_vec_index_decreases(*es, i as int);
                assert(es@.take(i + 1).drop_last() =~= es@.take(i as int));
            }
            self.walk(&es[i].key);
            self.walk(&es[i].value);
            i = i + 1;
        }
        proof {
            assert(es@.take(es@.len() as int) =~= es@);
        }
    }

    fn walk_template_parts(&mut self, ps: &Vec<TemplatePart>)
        requires
            old(self).model().scopes.len() >= 1,
        ensures
            final(self).model() == walk_parts(old(self).model(), ps@),
            final(self).model().scopes == old(self).model().scopes,
            walk_inv(old(self).model()) ==> walk_inv(final(self).model()),
        decreases ps,
    {
        let ghost m0 = self.model();
        let mut i: usize = 0;
        proof {
            assert(ps@.take(0) =~= Seq::<TemplatePart>::empty());
        }
        while i < ps.len()
            invariant
                i <= ps@.len(),
                self.model() == walk_parts(m0, ps@.take(i as int)),
                self.model().scopes == m0.scopes,
                m0.scopes.len() >= 1,
                walk_inv(m0) ==> walk_inv(self.model()),
            decreases ps@.len() - i,
        {
            proof {
                vstd::std_specs::vec::axiom_vec_index_decreases(*ps, i as int);
                assert(ps@.take(i + 1).drop_last() =~= ps@.take(i as int));
            }
            match &ps[i] {
                TemplatePart::Interpolation(e) => self.walk(e),
                TemplatePart::Literal(_) => {},
            }
            i = i + 1;
        }
        proof {
            assert(ps@.take(ps@.len() as int) =~= ps@);
        }
    }

    /// Walks a statement (inside a block's own scope).
    fn walk_stmt(&mut self, s: &Statement)
        requires
            old(self).model().scopes.len() >= 2,
        ensures
            final(self).model() == walk_stmt_spec(old(self).model(), *s),
            same_outer_scopes(old(self).model(), final(self).model()),
            walk_inv(old(self).model()) ==> walk_inv(final(self).model()),
        decreases s,
    {
        if self.hazard {
            return;
        }
        match s {
            Statement::Located { stmt, .. } => self.walk_stmt(stmt),
            Statement::Expression(e) => self.walk(e),
            Statement::LetDecl(ld) => {
                match &ld.value {
                    Some(v) => self.walk(v),
                    None => {},
                }
                let mut names: Vec<String> = Vec::new();
                Self::pattern_names(&ld.pattern, &mut names);
                proof {
                    assert(views(names@) =~= pattern_names_spec(ld.pattern));
                }
                let ghost m1 = self.model();
                self.declare_all(&names);
                proof {
                    assert(self.model().scopes.drop_last() =~= m1.scopes.drop_last());
                    assert(self.model().scopes[0] == m1.scopes[0]);
                }
            },
            _ => {
                self.hazard = true;
            },
        }
    }

    fn walk_statements(&mut self, ss: &Vec<Statement>)
        requires
            old(self).model().scopes.len() >= 2,
        ensures
            final(self).model() == walk_stmts(old(self).model(), ss@),
            same_outer_scopes(old(self).model(), final(self).model()),
            walk_inv(old(self).model()) ==> walk_inv(final(self).model()),
        decreases ss,
    {
        let ghost m0 = self.model();
        let mut i: usize = 0;
        proof {
            assert(ss@.take(0) =~= Seq::<Statement>::empty());
        }
        while i < ss.len()
            invariant
                i <= ss@.len(),
                self.model() == walk_stmts(m0, ss@.take(i as int)),
                same_outer_scopes(m0, self.model()),
                m0.scopes.len() >= 2,
                walk_inv(m0) ==> walk_inv(self.model()),
            decreases ss@.len() - i,
        {
            proof {
                vstd::std_specs::vec::axiom_vec_index_decreases(*ss, i as int);
                assert(ss@.take(i + 1).drop_last() =~= ss@.take(i as int));
            }
            self.walk_stmt(&ss[i]);
            i = i + 1;
        }
        proof {
            assert(ss@.take(ss@.len() as int) =~= ss@);
        }
    }
}

proof fn lemma_push_to_set(s: Seq<Seq<char>>, x: Seq<char>)
    ensures
        s.push(x).to_set() == s.to_set().insert(x),
{
    assert forall|y: Seq<char>| s.push(x).to_set().contains(y) <==> s.to_set().insert(x).contains(y) by {
        if s.push(x).contains(y) && y != x {
            let k = choose|k: int| 0 <= k < s.push(x).len() && s.push(x)[k] == y;
            assert(k < s.len());
            assert(s[k] == y);
        }
        if s.contains(y) {
            let k = choose|k: int| 0 <= k < s.len() && s[k] == y;
            assert(s.push(x)[k] == y);
        }
        if y == x {
            assert(s.push(x)[s.len() as int] == x);
        }
    }
    assert(s.push(x).to_set() =~= s.to_set().insert(x));
}

proof fn lemma_read_keeps_inv(m: WalkModel, n: Seq<char>)
    ensures
        walk_inv(m) ==> walk_inv(m_read(m, n)),
        m_read(m, n).scopes == m.scopes,
        m_read(m, n).writes == m.writes,
        m.reads.contains(n) || m_is_local(m, n) ==> m_read(m, n) == m,
        !m_is_local(m, n) ==> m_read(m, n).reads.contains(n),
        forall|w: Seq<char>| m.reads.contains(w) ==> m_read(m, n).reads.contains(w),
{
    let r = m_read(m, n);
    if !m_is_local(m, n) && !m.reads.contains(n) {
        assert(r.reads[m.reads.len() as int] == n);
        assert forall|w: Seq<char>| m.reads.contains(w) implies r.reads.contains(w) by {
            let k = choose|k: int| 0 <= k < m.reads.len() && m.reads[k] == w;
            assert(r.reads[k] == w);
        }
        if walk_inv(m) {
            assert forall|i: int, j: int| 0 <= i < j < r.reads.len() implies r.reads[i] != r.reads[j] by {
                if j == m.reads.len() {
                    assert(m.reads[i] == r.reads[i]);
                }
            }
            assert forall|x: Seq<char>| r.scopes[0].contains(x) implies !r.reads.contains(x) by {
                if r.reads.contains(x) {
                    let k = choose|k: int| 0 <= k < r.reads.len() && r.reads[k] == x;
                    if k < m.reads.len() {
                        assert(m.reads[k] == x);
                        assert(m.reads.contains(x));
                    } else {
                        assert(x == n);
                        assert(m.scopes[0].contains(n));
                        assert(m_is_local(m, n));
                    }
                }
            }
        }
    }
}

proof fn lemma_write_keeps_inv(m: WalkModel, n: Seq<char>)
    ensures
        walk_inv(m) ==> walk_inv(m_write(m, n)),
        m_write(m, n).scopes == m.scopes,
{
    lemma_read_keeps_inv(m, n);
    let m1 = m_read(m, n);
    let r = m_write(m, n);
    if !m_is_local(m, n) && !m1.writes.contains(n) && walk_inv(m) {
        assert(walk_inv(m1));
        assert(r.writes[m1.writes.len() as int] == n);
        assert forall|i: int, j: int| 0 <= i < j < r.writes.len() implies r.writes[i] != r.writes[j] by {
            if j == m1.writes.len() {
                assert(m1.writes[i] == r.writes[i]);
            }
        }
        assert forall|w: Seq<char>| r.writes.contains(w) implies r.reads.contains(w) by {
            let k = choose|k: int| 0 <= k < r.writes.len() && r.writes[k] == w;
            if k < m1.writes.len() {
                assert(m1.writes[k] == w);
            }
        }
    }
}


/// The walker's starting state for a loop body: one scope, holding the
/// loop variable when there is one.
pub open spec fn initial_model(loop_var: Option<Seq<char>>) -> WalkModel {
    WalkModel {
        scopes: seq![
            match loop_var {
                Some(v) => set![v],
                None => Set::empty(),
            },
        ],
        reads: seq![],
        writes: seq![],
        hazard: false,
    }
}

/// Analyzes a loop body. `None` means the body must stay interpreted: it
/// contains `return`, `?`, `spawn`, `par for`, a macro call, or a
/// declaration other than `let`. Otherwise the free names it reads and
/// the free names it assigns, each once, in first-seen order; every
/// assigned name is also read, and the loop variable is never among them.
pub fn analyze(body: &Expr, loop_var: Option<&str>) -> (r: Option<BodyFacts>)
    ensures
        ({
            let m = walk_spec(
                initial_model(
                    match loop_var {
                        Some(v) => Some(v@),
                        None => None,
                    },
                ),
                *body,
            );
            &&& r is None <==> m.hazard
            &&& r matches Some(f) ==> views(f.reads@) == m.reads && views(f.writes@) == m.writes
        }),
        r matches Some(f) ==> {
            &&& distinct(views(f.reads@))
            &&& distinct(views(f.writes@))
            &&& forall|w: Seq<char>| views(f.writes@).contains(w) ==> views(f.reads@).contains(w)
            &&& loop_var matches Some(v) ==> !views(f.reads@).contains(v@)
        },
{
    let mut scopes: Vec<Vec<String>> = Vec::new();
    scopes.push(Vec::new());
    let mut w = Walker { scopes, reads: Vec::new(), writes: Vec::new(), hazard: false };
    proof {
        assert(names_of(Seq::<String>::empty()) =~= Set::<Seq<char>>::empty());
        assert(w.model().scopes =~= seq![Set::<Seq<char>>::empty()]);
        assert(views(Seq::<String>::empty()) =~= Seq::<Seq<char>>::empty());
    }
    match loop_var {
        Some(v) => {
            let name = owned(v);
            w.declare(&name);
            proof {
                assert(Set::<Seq<char>>::empty().union(set![v@]) =~= set![v@]);
                assert(w.model().scopes =~= initial_model(Some(v@)).scopes);
            }
        },
        None => {
            proof {
                assert(w.model().scopes =~= initial_model(None).scopes);
            }
        },
    }
    let ghost m0 = w.model();
    proof {
        assert(m0 == initial_model(
            match loop_var {
                Some(v) => Some(v@),
                None => None,
            },
        ));
        assert(walk_inv(m0));
    }
    w.walk(body);
    proof {
        let m = w.model();
        assert(m.scopes == m0.scopes);
        if let Some(v) = loop_var {
            assert(m.scopes[0].contains(v@));
        }
    }
    if w.hazard {
        None
    } else {
        Some(BodyFacts { reads: w.reads, writes: w.writes })
    }
}

/// A synthesized function: its name, parameters, body and defining file.
pub struct Continuation {
    pub name: String,
    pub parameters: Vec<Parameter>,
    pub body: Expr,
    pub def_file: Option<String>,
}

/// A parameter with no annotation and no default.
pub fn param(name: &str) -> (p: Parameter)
    ensures
        p.name@ == name@,
        p.type_annotation is None,
        p.default_value is None,
{
    Parameter { name: owned(name), type_annotation: None, default_value: None }
}

/// Whether `e` is the identifier `n`.
pub open spec fn is_ident(e: Expr, n: Seq<char>) -> bool {
    e matches Expr::Identifier(x) && x@ == n
}

/// Whether `params` are plain parameters named, in order, by `names`.
pub open spec fn plain_params(params: Seq<Parameter>, names: Seq<Seq<char>>) -> bool {
    params.len() == names.len() && forall|i: int|
        0 <= i < params.len() ==> (#[trigger] params[i]).name@ == names[i] && params[i].type_annotation
            is None && params[i].default_value is None
}

/// Whether `f` runs `loop_expr`, binding its value to `__r`, and returns
/// `__r` alone when nothing is written back, or the tuple of `__r` and
/// the written variables otherwise.
pub open spec fn is_continuation(f: Continuation, loop_expr: Expr, writes: Seq<Seq<char>>) -> bool {
    &&& f.name@ == "<hot loop>"@
    &&& f.body matches Expr::Block(stmts) && stmts@.len() == 2 && (stmts@[0] matches Statement::LetDecl(
        ld,
    ) && (ld.pattern matches Pattern::Identifier(r) && r@ == "__r"@) && ld.type_annotation is None
        && ld.value == Some(loop_expr) && !ld.mutable) && (stmts@[1] matches Statement::Expression(
        tail,
    ) && if writes.len() == 0 {
        is_ident(tail, "__r"@)
    } else {
        tail matches Expr::Tuple(items) && items@.len() == writes.len() + 1 && is_ident(
            items@[0],
            "__r"@,
        ) && forall|i: int| 0 <= i < writes.len() ==> is_ident(#[trigger] items@[i + 1], writes[i])
    })
}

fn build_continuation(
    loop_expr: Expr,
    params: Vec<Parameter>,
    writes: &Vec<String>,
    def_file: Option<String>,
) -> (f: Continuation)
    ensures
        is_continuation(f, loop_expr, views(writes@)),
        f.parameters == params,
        f.def_file == def_file,
{
    let ghost le = loop_expr;
    let tail = if writes.len() == 0 {
        Expr::Identifier(owned("__r"))
    } else {
        let mut items: Vec<Expr> = Vec::new();
        items.push(Expr::Identifier(owned("__r")));
        let mut i: usize = 0;
        while i < writes.len()
            invariant
                i <= writes@.len(),
                items@.len() == i + 1,
                is_ident(items@[0], "__r"@),
                forall|k: int| 0 <= k < i ==> is_ident(#[trigger] items@[k + 1], views(writes@)[k]),
            decreases writes@.len() - i,
        {
            items.push(Expr::Identifier(copy_string(&writes[i])));
            i = i + 1;
        }
        Expr::Tuple(items)
    };
    let mut stmts: Vec<Statement> = Vec::new();
    stmts.push(
        Statement::LetDecl(
            LetDecl {
                pattern: Pattern::Identifier(owned("__r")),
                type_annotation: None,
                value: Some(loop_expr),
                mutable: false,
            },
        ),
    );
    stmts.push(Statement::Expression(tail));
    Continuation { name: owned("<hot loop>"), parameters: params, body: Expr::Block(stmts), def_file }
}

/// The synthesized continuation of a `for variable in lo..hi` loop:
/// callable as `f(__lo, __hi, live_ins...)`, returning the loop's value,
/// or the tuple of it and the written variables.
pub fn synthesize_range_continuation(
    variable: &str,
    inclusive: bool,
    body: Expr,
    live_ins: &Vec<String>,
    writes: &Vec<String>,
    def_file: Option<String>,
) -> (f: Continuation)
    ensures
        plain_params(f.parameters@, seq!["__lo"@, "__hi"@] + views(live_ins@)),
        f.def_file == def_file,
        exists|lo: Box<Expr>, hi: Box<Expr>, loop_body: Box<Expr>, v: String| is_continuation(
            f,
            Expr::ForLoop {
                variable: v,
                iterable: Box::new(Expr::Range { start: lo, end: hi, inclusive }),
                body: loop_body,
            },
            views(writes@),
        ) && v@ == variable@ && is_ident(*lo, "__lo"@) && is_ident(*hi, "__hi"@) && *loop_body == body,
{
    let lo = Box::new(Expr::Identifier(owned("__lo")));
    let hi = Box::new(Expr::Identifier(owned("__hi")));
    let v = owned(variable);
    let ghost (glo, ghi, gv) = (lo, hi, v);
    let loop_body = Box::new(body);
    let ghost gb = loop_body;
    let loop_expr = Expr::ForLoop {
        variable: v,
        iterable: Box::new(Expr::Range { start: lo, end: hi, inclusive }),
        body: loop_body,
    };
    let mut params: Vec<Parameter> = Vec::new();
    params.push(param("__lo"));
    params.push(param("__hi"));
    let mut i: usize = 0;
    while i < live_ins.len()
        invariant
            i <= live_ins@.len(),
            plain_params(params@, seq!["__lo"@, "__hi"@] + views(live_ins@).take(i as int)),
        decreases live_ins@.len() - i,
    {
        params.push(param(live_ins[i].as_str()));
        proof {
            assert(views(live_ins@).take(i + 1) =~= views(live_ins@).take(i as int).push(live_ins@[i as int]@));
            assert(seq!["__lo"@, "__hi"@] + views(live_ins@).take(i + 1) =~= (seq!["__lo"@, "__hi"@] + views(live_ins@).take(i as int)).push(live_ins@[i as int]@));
        }
        i = i + 1;
    }
    proof {
        assert(views(live_ins@).take(live_ins@.len() as int) =~= views(live_ins@));
    }
    let f = build_continuation(loop_expr, params, writes, def_file);
    proof {
        assert(is_continuation(
            f,
            Expr::ForLoop {
                variable: gv,
                iterable: Box::new(Expr::Range { start: glo, end: ghi, inclusive }),
                body: gb,
            },
            views(writes@),
        ));
    }
    f
}

/// The synthesized continuation of a `while condition` loop: callable as
/// `f(live_ins...)`, returning the loop's value, or the tuple of it and
/// the written variables.
pub fn synthesize_while_continuation(
    condition: Expr,
    body: Expr,
    live_ins: &Vec<String>,
    writes: &Vec<String>,
    def_file: Option<String>,
) -> (f: Continuation)
    ensures
        plain_params(f.parameters@, views(live_ins@)),
        f.def_file == def_file,
        is_continuation(
            f,
            Expr::WhileLoop { condition: Box::new(condition), body: Box::new(body) },
            views(writes@),
        ),
{
    let loop_expr = Expr::WhileLoop { condition: Box::new(condition), body: Box::new(body) };
    let mut params: Vec<Parameter> = Vec::new();
    let mut i: usize = 0;
    while i < live_ins.len()
        invariant
            i <= live_ins@.len(),
            plain_params(params@, views(live_ins@).take(i as int)),
        decreases live_ins@.len() - i,
    {
        params.push(param(live_ins[i].as_str()));
        proof {
            assert(views(live_ins@).take(i + 1) =~= views(live_ins@).take(i as int).push(live_ins@[i as int]@));
        }
        i = i + 1;
    }
    proof {
        assert(views(live_ins@).take(live_ins@.len() as int) =~= views(live_ins@));
    }
    build_continuation(loop_expr, params, writes, def_file)
}

/// The names a `while` loop reads: the body's reads, then each read of the
/// condition not already among them.
pub open spec fn merged_reads(body: Seq<Seq<char>>, cond: Seq<Seq<char>>) -> Seq<Seq<char>>
    decreases cond.len(),
{
    if cond.len() == 0 {
        body
    } else {
        let m = merged_reads(body, cond.drop_last());
        if m.contains(cond.last()) {
            m
        } else {
            m.push(cond.last())
        }
    }
}

/// The reads that are bound in the scope chain, in order: the loop's
/// live-ins.
pub open spec fn live_ins_of(ls: Seq<Layer>, reads: Seq<Seq<char>>) -> Seq<Seq<char>>
    decreases reads.len(),
{
    if reads.len() == 0 {
        Seq::empty()
    } else {
        let m = live_ins_of(ls, reads.drop_last());
        if scope_lookup(ls, reads.last()) is Some {
            m.push(reads.last())
        } else {
            m
        }
    }
}

/// What promoting a hot loop hands to the optimizing tier: the live-in
/// names, the arguments of the continuation call (the next and last loop
/// values for a `for` loop, then the live-ins' values) and the names it
/// writes back.
pub struct PromotionPlan {
    pub live_names: Vec<String>,
    pub args: Vec<Value>,
    pub writes: Vec<String>,
}

/// The reads of the loop to promote: the body's, merged with the
/// condition's for a `while` loop.
pub open spec fn loop_reads(body: BodyFacts, cond: Option<BodyFacts>) -> Seq<Seq<char>> {
    match cond {
        Some(c) => merged_reads(views(body.reads@), views(c.reads@)),
        None => views(body.reads@),
    }
}

/// Whether a loop can be promoted: a `for` range or a `while` condition
/// (exactly one), a condition that writes nothing, and every written name
/// a live-in.
pub open spec fn promotable(ls: Seq<Layer>, body: BodyFacts, cond: Option<BodyFacts>, range: Option<(i64, i64)>) -> bool {
    &&& (range is Some) != (cond is Some)
    &&& (cond matches Some(c) ==> c.writes@.len() == 0)
    &&& forall|i: int| 0 <= i < body.writes@.len() ==> live_ins_of(ls, loop_reads(body, cond)).contains(
        #[trigger] body.writes@[i]@,
    )
}

/// Plans the promotion of a hot loop's remaining iterations, given the
/// facts of its body (and of its condition, for a `while` loop) and, for
/// a `for` loop, the next and last values of its variable. `None` when the
/// loop stays interpreted.
pub fn promotion_plan(
    env: &Environment,
    body: &BodyFacts,
    cond: Option<&BodyFacts>,
    range: Option<(i64, i64)>,
) -> (r: Option<PromotionPlan>)
    ensures
        ({
            let c = match cond {
                Some(c) => Some(*c),
                None => None,
            };
            let live = live_ins_of(env.layers(), loop_reads(*body, c));
            let k: int = if range is Some { 2 } else { 0 };
            &&& r is Some <==> promotable(env.layers(), *body, c, range)
            &&& r matches Some(p) ==> {
                &&& views(p.live_names@) == live
                &&& views(p.writes@) == views(body.writes@)
                &&& p.args@.len() == k + live.len()
                &&& (range matches Some(ne) ==> p.args@[0] == Value::Integer(ne.0) && p.args@[1] == Value::Integer(
                    ne.1,
                ))
                &&& forall|i: int|
                    0 <= i < live.len() ==> opt_same(
                        scope_lookup(env.layers(), #[trigger] live[i]),
                        Some(p.args@[k + i]),
                    )
            }
        }),
{
    let ghost c = match cond {
        Some(c) => Some(*c),
        None => None,
    };
    let mut reads: Vec<String> = Vec::new();
    let mut i: usize = 0;
    proof {
        assert(views(body.reads@).take(0) =~= Seq::<Seq<char>>::empty());
        assert(views(reads@) =~= Seq::<Seq<char>>::empty());
    }
    while i < body.reads.len()
        invariant
            i <= body.reads@.len(),
            views(reads@) == views(body.reads@).take(i as int),
        decreases body.reads@.len() - i,
    {
        let ghost r0 = views(reads@);
        reads.push(copy_string(&body.reads[i]));
        proof {
            assert(views(reads@) =~= r0.push(body.reads@[i as int]@));
            assert(views(body.reads@).take(i + 1) =~= views(body.reads@).take(i as int).push(body.reads@[i as int]@));
        }
        i = i + 1;
    }
    proof {
        assert(views(body.reads@).take(body.reads@.len() as int) =~= views(body.reads@));
    }
    match cond {
        Some(cf) => {
            if cf.writes.len() > 0 {
                return None;
            }
            let mut j: usize = 0;
            proof {
                assert(views(cf.reads@).take(0) =~= Seq::<Seq<char>>::empty());
            }
            while j < cf.reads.len()
                invariant
                    j <= cf.reads@.len(),
                    views(reads@) == merged_reads(views(body.reads@), views(cf.reads@).take(j as int)),
                decreases cf.reads@.len() - j,
            {
                let ghost r0 = views(reads@);
                let ghost t = views(cf.reads@).take(j + 1);
                proof {
                    assert(t.drop_last() =~= views(cf.reads@).take(j as int));
                    assert(t.last() == cf.reads@[j as int]@);
                }
                if !contains_string(&reads, &cf.reads[j]) {
                    reads.push(copy_string(&cf.reads[j]));
                    proof {
                        assert(views(reads@) =~= r0.push(cf.reads@[j as int]@));
                    }
                }
                j = j + 1;
            }
            proof {
                assert(views(cf.reads@).take(cf.reads@.len() as int) =~= views(cf.reads@));
            }
        },
        None => {},
    }
    let ghost all_reads = views(reads@);
    proof {
        assert(all_reads == loop_reads(*body, c));
    }
    let mut live_names: Vec<String> = Vec::new();
    let mut live_values: Vec<Value> = Vec::new();
    let mut q: usize = 0;
    proof {
        assert(all_reads.take(0) =~= Seq::<Seq<char>>::empty());
        assert(views(live_names@) =~= Seq::<Seq<char>>::empty());
    }
    while q < reads.len()
        invariant
            q <= reads@.len(),
            all_reads == views(reads@),
            views(live_names@) == live_ins_of(env.layers(), all_reads.take(q as int)),
            live_values@.len() == live_names@.len(),
            forall|t: int|
                0 <= t < live_names@.len() ==> opt_same(
                    scope_lookup(env.layers(), #[trigger] views(live_names@)[t]),
                    Some(live_values@[t]),
                ),
        decreases reads@.len() - q,
    {
        let ghost tk = all_reads.take(q + 1);
        proof {
            assert(tk.drop_last() =~= all_reads.take(q as int));
            assert(tk.last() == reads@[q as int]@);
        }
        match env.get(reads[q].as_str()) {
            Some(v) => {
                let ghost n0 = views(live_names@);
                let ghost lv0 = live_values@;
                live_names.push(copy_string(&reads[q]));
                live_values.push(v);
                proof {
                    assert(views(live_names@) =~= n0.push(reads@[q as int]@));
                    assert forall|t: int|
                        0 <= t < live_names@.len() implies opt_same(
                            scope_lookup(env.layers(), #[trigger] views(live_names@)[t]),
                            Some(live_values@[t]),
                        ) by {
                        if t < n0.len() {
                            assert(views(live_names@)[t] == n0[t]);
                            assert(live_values@[t] == lv0[t]);
                        }
                    }
                }
            },
            None => {},
        }
        q = q + 1;
    }
    proof {
        assert(all_reads.take(reads@.len() as int) =~= all_reads);
    }
    let ghost live = views(live_names@);
    let mut w: usize = 0;
    while w < body.writes.len()
        invariant
            w <= body.writes@.len(),
            live == views(live_names@),
            live == live_ins_of(env.layers(), loop_reads(*body, c)),
            c == match cond {
                Some(x) => Some(*x),
                None => None,
            },
            forall|i: int| 0 <= i < w ==> live.contains(#[trigger] body.writes@[i]@),
        decreases body.writes@.len() - w,
    {
        if !contains_string(&live_names, &body.writes[w]) {
            proof {
                assert(!live.contains(body.writes@[w as int]@));
                assert(!promotable(env.layers(), *body, c, range));
            }
            return None;
        }
        w = w + 1;
    }
    if range.is_some() == cond.is_some() {
        return None;
    }
    let mut args: Vec<Value> = Vec::new();
    match range {
        Some((next, end)) => {
            args.push(Value::Integer(next));
            args.push(Value::Integer(end));
        },
        None => {},
    }
    let ghost a0 = args@;
    let mut lv = live_values;
    args.append(&mut lv);
    proof {
        assert(args@ =~= a0 + live_values@);
    }
    let writes = crate::module_store::copy_strings(&body.writes);
    Some(PromotionPlan { live_names, args, writes })
}

/// Whether `states` is a run of assignments from `start`: each state is
/// the one before with `names[t]` rebound to `vals[t]` (up to copies).
pub open spec fn assignment_run(
    states: Seq<Seq<Layer>>,
    start: Seq<Layer>,
    names: Seq<Seq<char>>,
    vals: Seq<Value>,
) -> bool {
    &&& states.len() >= 1
    &&& states[0] == start
    &&& states.len() - 1 <= names.len()
    &&& states.len() - 1 <= vals.len()
    &&& forall|t: int|
        0 <= t < states.len() - 1 ==> assign_spec(#[trigger] states[t], names[t], vals[t]) is Some && same_layers(
            states[t + 1],
            assign_spec(states[t], names[t], vals[t])->0,
        )
}

/// Writes back a promoted loop's result. With no written names the result
/// is the loop's value. Otherwise the result must be a tuple: its first
/// item is the loop's value and the following items are assigned, in
/// order, to the written names (as many as both have); an assignment to a
/// name that is no longer bound stops with its error. A result of another
/// shape means the tier diverged: nothing is written and `None` tells the
/// caller to keep interpreting.
pub fn apply_promoted_result(env: &mut Environment, writes: &Vec<String>, result: Value) -> (r: Result<
    Option<Value>,
    InterpreterError,
>)
    requires
        writes@.len() > 0 ==> (result matches Value::Tuple(items) ==> items@.len() > 0),
    ensures
        writes@.len() == 0 ==> r == Ok::<Option<Value>, InterpreterError>(Some(result)) && *final(env) == *old(env),
        writes@.len() > 0 && !(result is Tuple) ==> r == Ok::<Option<Value>, InterpreterError>(None) && *final(env)
            == *old(env),
        writes@.len() > 0 && result is Tuple ==> ({
            let items = result->Tuple_0@;
            let outs = items.skip(1);
            let n = if writes@.len() < outs.len() { writes@.len() as int } else { outs.len() as int };
            exists|states: Seq<Seq<Layer>>|
                assignment_run(states, old(env).layers(), views(writes@), outs) && states.last() == final(env).layers()
                    && match r {
                    Ok(Some(v)) => v == items[0] && states.len() == n + 1,
                    Ok(None) => false,
                    Err(e) => states.len() - 1 < n && assign_spec(
                        states.last(),
                        views(writes@)[states.len() - 1],
                        outs[states.len() - 1],
                    ) is None && (e matches InterpreterError::UndefinedVariable { name } && name@ == views(
                        writes@,
                    )[states.len() - 1]),
                }
        }),
{
    if writes.len() == 0 {
        return Ok(Some(result));
    }
    match result {
        Value::Tuple(items0) => {
            let ghost orig = items0@;
            let ghost outs = orig.skip(1);
            let mut items = items0;
            let loop_value = items.remove(0);
            proof {
                assert(items@ =~= outs);
            }
            let ghost names = views(writes@);
            let ghost mut states: Seq<Seq<Layer>> = seq![env.layers()];
            let mut t: usize = 0;
            let ghost start = env.layers();
            proof {
                assert(states[0] == start);
            }
            while t < writes.len() && items.len() > 0
                invariant
                    t <= writes@.len(),
                    writes@.len() > 0,
                    result is Tuple,
                    result->Tuple_0@ == orig,
                    outs == orig.skip(1),
                    start == old(env).layers(),
                    names == views(writes@),
                    items@ == outs.skip(t as int),
                    t <= outs.len(),
                    states.len() == t + 1,
                    assignment_run(states, start, names, outs),
                    states.last() == env.layers(),
                decreases writes@.len() - t,
            {
                let v = items.remove(0);
                proof {
                    assert(v == outs[t as int]);
                    assert(items@ =~= outs.skip(t + 1));
                }
                let ghost before = env.layers();
                let ghost s0 = states;
                match env.set(writes[t].as_str(), v) {
                    Ok(()) => {},
                    Err(e) => {
                        proof {
                            assert(names[t as int] == writes@[t as int]@);
                            crate::environment::lemma_assign_spec(before, names[t as int], outs[t as int], names[t as int]);
                            assert(states.last() == env.layers());
                            assert(assignment_run(states, old(env).layers(), views(writes@), outs));
                        }
                        return Err(e);
                    },
                }
                proof {
                    states = s0.push(env.layers());
                    assert(names[t as int] == writes@[t as int]@);
                    assert forall|u: int| 0 <= u < states.len() - 1 implies assign_spec(
                        #[trigger] states[u],
                        names[u],
                        outs[u],
                    ) is Some && same_layers(states[u + 1], assign_spec(states[u], names[u], outs[u])->0) by {
                        if u < s0.len() - 1 {
                            assert(states[u] == s0[u] && states[u + 1] == s0[u + 1]);
                        } else {
                            assert(states[u] == before);
                        }
                    }
                }
                t = t + 1;
            }
            proof {
                assert(loop_value == orig[0]);
                assert(assignment_run(states, old(env).layers(), views(writes@), outs));
            }
            Ok(Some(loop_value))
        },
        _ => Ok(None),
    }
}


/// Walking an expression leaves the scopes as they were.
proof fn lemma_walk_scopes(m: WalkModel, e: Expr)
    requires
        m.scopes.len() >= 1,
    ensures
        walk_spec(m, e).scopes == m.scopes,
    decreases e, 0nat,
{
    if !m.hazard {
        match e {
            Expr::LocalAssign { value, .. } => lemma_walk_scopes(m, *value),
            Expr::Assignment { value, .. } => lemma_walk_scopes(m, *value),
            Expr::List(items) => lemma_list_scopes(m, items@),
            Expr::Tuple(items) => lemma_list_scopes(m, items@),
            Expr::Call { callee, arguments } => {
                lemma_walk_scopes(m, *callee);
                lemma_args_scopes(walk_spec(m, *callee), arguments@);
            },
            Expr::Lambda { parameters, body } => {
                lemma_defaults_scopes(m, parameters@);
                lemma_scoped_scopes(walk_defaults(m, parameters@), param_names(parameters@).to_set(), *body);
            },
            Expr::Pipeline { left, right } => {
                lemma_walk_scopes(m, *left);
                lemma_walk_scopes(walk_spec(m, *left), *right);
            },
            Expr::Match { value, arms } => {
                lemma_walk_scopes(m, *value);
                lemma_arms_scopes(walk_spec(m, *value), arms@);
            },
            Expr::If { condition, then_branch, else_branch } => {
                lemma_walk_scopes(m, *condition);
                let m1 = walk_spec(m, *condition);
                lemma_walk_scopes(m1, *then_branch);
                if let Some(eb) = else_branch {
                    lemma_walk_scopes(walk_spec(m1, *then_branch), *eb);
                }
            },
            Expr::Range { start, end, .. } => {
                lemma_walk_scopes(m, *start);
                lemma_walk_scopes(walk_spec(m, *start), *end);
            },
            Expr::Block(stmts) => {
                lemma_stmts_scopes(m_push(m), stmts@);
                let r = walk_stmts(m_push(m), stmts@);
                assert(m_push(m).scopes.drop_last() =~= m.scopes);
                assert(m_pop(r).scopes =~= m.scopes);
            },
            Expr::BinaryOp { left, right, .. } => {
                lemma_walk_scopes(m, *left);
                lemma_walk_scopes(walk_spec(m, *left), *right);
            },
            Expr::BitwiseOp { left, right, .. } => {
                lemma_walk_scopes(m, *left);
                lemma_walk_scopes(walk_spec(m, *left), *right);
            },
            Expr::UnaryOp { operand, .. } => lemma_walk_scopes(m, *operand),
            Expr::StructLiteral(sl) => lemma_fields_scopes(m, sl.fields@),
            Expr::AnonymousObject { fields } => lemma_fields_scopes(m, fields@),
            Expr::MapLiteral { entries } => lemma_entries_scopes(m, entries@),
            Expr::FieldAccess { object, .. } => lemma_walk_scopes(m, *object),
            Expr::ResultOk(x) => lemma_walk_scopes(m, *x),
            Expr::ResultErr(x) => lemma_walk_scopes(m, *x),
            Expr::Spread(x) => lemma_walk_scopes(m, *x),
            Expr::Rest(x) => lemma_walk_scopes(m, *x),
            Expr::ForLoop { variable, iterable, body } => {
                lemma_walk_scopes(m, *iterable);
                lemma_scoped_scopes(walk_spec(m, *iterable), set![variable@], *body);
            },
            Expr::WhileLoop { condition, body } => {
                lemma_walk_scopes(m, *condition);
                lemma_scoped_scopes(walk_spec(m, *condition), Set::empty(), *body);
            },
            Expr::Loop { body } => lemma_scoped_scopes(m, Set::empty(), *body),
            Expr::Break(v) => {
                if let Some(x) = v {
                    lemma_walk_scopes(m, *x);
                }
            },
            Expr::Index { object, index } => {
                lemma_walk_scopes(m, *object);
                lemma_walk_scopes(walk_spec(m, *object), *index);
            },
            Expr::TemplateString { parts } => lemma_parts_scopes(m, parts@),
            Expr::AssertEq { actual, expected, .. } => {
                lemma_walk_scopes(m, *actual);
                lemma_walk_scopes(walk_spec(m, *actual), *expected);
            },
            Expr::AssertNe { actual, expected, .. } => {
                lemma_walk_scopes(m, *actual);
                lemma_walk_scopes(walk_spec(m, *actual), *expected);
            },
            Expr::Assert { condition, .. } => lemma_walk_scopes(m, *condition),
            Expr::AssertTrue { expression, .. } => lemma_walk_scopes(m, *expression),
            Expr::AssertFalse { expression, .. } => lemma_walk_scopes(m, *expression),
            _ => {},
        }
    }
}

/// Walking a body in a scope of its own leaves the scopes as they were.
proof fn lemma_scoped_scopes(m: WalkModel, declare: Set<Seq<char>>, body: Expr)
    requires
        m.scopes.len() >= 1,
    ensures
        walk_scoped_spec(m, declare, body).scopes == m.scopes,
    decreases body, 1nat,
{
    let m1 = m_declare(m_push(m), declare);
    lemma_walk_scopes(m1, body);
    assert(m1.scopes.drop_last() =~= m.scopes);
    assert(m_pop(walk_spec(m1, body)).scopes =~= m.scopes);
}

proof fn lemma_list_scopes(m: WalkModel, es: Seq<Expr>)
    requires
        m.scopes.len() >= 1,
    ensures
        walk_list(m, es).scopes == m.scopes,
    decreases es,
{
    if es.len() > 0 {
        lemma_list_scopes(m, es.drop_last());
        lemma_walk_scopes(walk_list(m, es.drop_last()), es.last());
    }
}

proof fn lemma_args_scopes(m: WalkModel, args: Seq<Argument>)
    requires
        m.scopes.len() >= 1,
    ensures
        walk_args(m, args).scopes == m.scopes,
    decreases args,
{
    if args.len() > 0 {
        lemma_args_scopes(m, args.drop_last());
        let m1 = walk_args(m, args.drop_last());
        match args.last() {
            Argument::Positional(e) => lemma_walk_scopes(m1, e),
            Argument::Named { value, .. } => lemma_walk_scopes(m1, value),
        }
    }
}

proof fn lemma_defaults_scopes(m: WalkModel, ps: Seq<Parameter>)
    requires
        m.scopes.len() >= 1,
    ensures
        walk_defaults(m, ps).scopes == m.scopes,
    decreases ps,
{
    if ps.len() > 0 {
        lemma_defaults_scopes(m, ps.drop_last());
        if let Some(d) = ps.last().default_value {
            lemma_walk_scopes(walk_defaults(m, ps.drop_last()), d);
        }
    }
}

proof fn lemma_arm_scopes(m: WalkModel, arm: MatchArm)
    requires
        m.scopes.len() >= 1,
    ensures
        walk_arm(m, arm).scopes == m.scopes,
    decreases arm,
{
    let m1 = m_declare(m_push(m), pattern_names_spec(arm.pattern).to_set());
    let m2 = match arm.guard {
        Some(g) => walk_spec(m1, g),
        None => m1,
    };
    if let Some(g) = arm.guard {
        lemma_walk_scopes(m1, g);
    }
    lemma_walk_scopes(m2, arm.expression);
    assert(m1.scopes.drop_last() =~= m.scopes);
    assert(m_pop(walk_spec(m2, arm.expression)).scopes =~= m.scopes);
}

proof fn lemma_arms_scopes(m: WalkModel, arms: Seq<MatchArm>)
    requires
        m.scopes.len() >= 1,
    ensures
        walk_arms(m, arms).scopes == m.scopes,
    decreases arms,
{
    if arms.len() > 0 {
        lemma_arms_scopes(m, arms.drop_last());
        lemma_arm_scopes(walk_arms(m, arms.drop_last()), arms.last());
    }
}

proof fn lemma_fields_scopes(m: WalkModel, fs: Seq<FieldInit>)
    requires
        m.scopes.len() >= 1,
    ensures
        walk_fields(m, fs).scopes == m.scopes,
    decreases fs,
{
    if fs.len() > 0 {
        lemma_fields_scopes(m, fs.drop_last());
        lemma_walk_scopes(walk_fields(m, fs.drop_last()), fs.last().value);
    }
}

proof fn lemma_entries_scopes(m: WalkModel, es: Seq<MapEntry>)
    requires
        m.scopes.len() >= 1,
    ensures
        walk_entries(m, es).scopes == m.scopes,
    decreases es,
{
    if es.len() > 0 {
        lemma_entries_scopes(m, es.drop_last());
        let m1 = walk_entries(m, es.drop_last());
        lemma_walk_scopes(m1, es.last().key);
        lemma_walk_scopes(walk_spec(m1, es.last().key), es.last().value);
    }
}

proof fn lemma_parts_scopes(m: WalkModel, ps: Seq<TemplatePart>)
    requires
        m.scopes.len() >= 1,
    ensures
        walk_parts(m, ps).scopes == m.scopes,
    decreases ps,
{
    if ps.len() > 0 {
        lemma_parts_scopes(m, ps.drop_last());
        if let TemplatePart::Interpolation(e) = ps.last() {
            lemma_walk_scopes(walk_parts(m, ps.drop_last()), e);
        }
    }
}

/// Walking a statement changes at most the innermost scope.
proof fn lemma_stmt_scopes(m: WalkModel, s: Statement)
    requires
        m.scopes.len() >= 1,
    ensures
        same_outer_scopes(m, walk_stmt_spec(m, s)),
    decreases s,
{
    if !m.hazard {
        match s {
            Statement::Located { stmt, .. } => lemma_stmt_scopes(m, *stmt),
            Statement::Expression(e) => lemma_walk_scopes(m, e),
            Statement::LetDecl(ld) => {
                let m1 = match ld.value {
                    Some(v) => walk_spec(m, v),
                    None => m,
                };
                if let Some(v) = ld.value {
                    lemma_walk_scopes(m, v);
                }
                let r = m_declare(m1, pattern_names_spec(ld.pattern).to_set());
                assert(r.scopes.drop_last() =~= m.scopes.drop_last());
            },
            _ => {},
        }
    }
}

proof fn lemma_stmts_scopes(m: WalkModel, ss: Seq<Statement>)
    requires
        m.scopes.len() >= 1,
    ensures
        same_outer_scopes(m, walk_stmts(m, ss)),
    decreases ss,
{
    if ss.len() > 0 {
        lemma_stmts_scopes(m, ss.drop_last());
        lemma_stmt_scopes(walk_stmts(m, ss.drop_last()), ss.last());
    }
}

/// An `if` with an `else` branch is walked as the `if` without it and then
/// the else branch: what the else branch reads, assigns or forbids counts
/// exactly as if it followed the `if`.
pub proof fn law_else_branch_is_walked(m: WalkModel, condition: Box<Expr>, then_branch: Box<Expr>, else_branch: Box<Expr>)
    ensures
        walk_spec(m, Expr::If { condition, then_branch, else_branch: Some(else_branch) }) == walk_spec(
            walk_spec(m, Expr::If { condition, then_branch, else_branch: None }),
            *else_branch,
        ),
{
}

/// A free name assigned in an else branch of a body with no hazard is
/// among the names written, and among the names read.
pub proof fn law_else_assignment_is_recorded(
    m: WalkModel,
    condition: Box<Expr>,
    then_branch: Box<Expr>,
    target: String,
    value: Box<Expr>,
)
    requires
        m.scopes.len() >= 1,
        !m_is_local(m, target@),
        !walk_spec(
            m,
            Expr::If {
                condition,
                then_branch,
                else_branch: Some(Box::new(Expr::Assignment { target, value })),
            },
        ).hazard,
    ensures
        ({
            let r = walk_spec(
                m,
                Expr::If {
                    condition,
                    then_branch,
                    else_branch: Some(Box::new(Expr::Assignment { target, value })),
                },
            );
            r.writes.contains(target@) && r.reads.contains(target@)
        }),
{
    let m1 = walk_spec(m, *condition);
    lemma_walk_scopes(m, *condition);
    let m2 = walk_spec(m1, *then_branch);
    lemma_walk_scopes(m1, *then_branch);
    let m3 = walk_spec(m2, *value);
    lemma_walk_scopes(m2, *value);
    assert(!m_is_local(m3, target@));
    let m4 = m_read(m3, target@);
    assert(m4.reads.contains(target@)) by {
        if !m3.reads.contains(target@) {
            assert(m4.reads[m4.reads.len() - 1] == target@);
        }
    }
    let m5 = m_write(m3, target@);
    assert(m5.writes.contains(target@)) by {
        if !m4.writes.contains(target@) {
            assert(m5.writes[m5.writes.len() - 1] == target@);
        }
    }
    let a = Expr::Assignment { target, value };
    let r = walk_spec(m, Expr::If { condition, then_branch, else_branch: Some(Box::new(a)) });
    assert(!m.hazard);
    assert(r == walk_spec(m2, a));
    assert(!m2.hazard);
    assert(walk_spec(m2, a) == m5);
}

/// A `return`, `?`, `spawn`, `par for` or macro call in an else branch
/// makes the body unsafe to promote.
pub proof fn law_else_hazard_refuses(m: WalkModel, condition: Box<Expr>, then_branch: Box<Expr>, hazard: Expr)
    requires
        hazard is Return || hazard is Try || hazard is Spawn || hazard is ParForLoop || hazard is MacroCall,
    ensures
        walk_spec(m, Expr::If { condition, then_branch, else_branch: Some(Box::new(hazard)) }).hazard,
{
    let m2 = walk_spec(walk_spec(m, *condition), *then_branch);
    assert(walk_spec(m2, hazard).hazard);
}

} // verus!
