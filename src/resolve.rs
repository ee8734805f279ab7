//! The declaration table of variables, and the resolver that turns a
//! variable's raw text into a JSON fragment.
use vstd::prelude::*;
use crate::classify::{RawValue, ValueModel};
use crate::text::{join, join_with, lemma_views_push, push_char, views};

verus! {

#[derive(Clone, Copy, Debug, PartialEq, Eq, Structural)]
pub enum DiagnosticKind {
    CircularReference,
    UndefinedVariable,
    UnusedVariable,
    UnclassifiableLine,
}

/// A warning, or the one fatal condition, with the key or line it is about.
#[derive(Clone, Debug, PartialEq, Eq)]
pub struct Diagnostic {
    pub kind: DiagnosticKind,
    pub subject: String,
}

pub type DiagModel = (DiagnosticKind, Seq<char>);

pub open spec fn message_head(kind: DiagnosticKind) -> Seq<char> {
    match kind {
        DiagnosticKind::CircularReference => "circular reference to variable '"@,
        DiagnosticKind::UndefinedVariable => "variable '"@,
        DiagnosticKind::UnusedVariable => "variable '"@,
        DiagnosticKind::UnclassifiableLine => "invalid line: "@,
    }
}

pub open spec fn message_tail(kind: DiagnosticKind) -> Seq<char> {
    match kind {
        DiagnosticKind::CircularReference => "'"@,
        DiagnosticKind::UndefinedVariable => "' is undefined"@,
        DiagnosticKind::UnusedVariable => "' is declared but never used"@,
        DiagnosticKind::UnclassifiableLine => ""@,
    }
}

impl Diagnostic {
    /// A human-readable line naming the offending key or line.
    pub fn message(&self) -> (r: String)
        ensures
            r@ == message_head(self.kind) + self.subject@ + message_tail(self.kind),
    {
        let (head, tail) = match self.kind {
            DiagnosticKind::CircularReference => ("circular reference to variable '", "'"),
            DiagnosticKind::UndefinedVariable => ("variable '", "' is undefined"),
            DiagnosticKind::UnusedVariable => ("variable '", "' is declared but never used"),
            DiagnosticKind::UnclassifiableLine => ("invalid line: ", ""),
        };
        let mut r = String::from_str(head);
        r.append(self.subject.as_str());
        r.append(tail);
        r
    }
}

pub open spec fn diag_views(d: Seq<Diagnostic>) -> Seq<DiagModel> {
    d.map_values(|x: Diagnostic| (x.kind, x.subject@))
}

pub proof fn lemma_diag_views_push(d: Seq<Diagnostic>, x: Diagnostic)
    ensures
        diag_views(d.push(x)) == diag_views(d).push((x.kind, x.subject@)),
{
    assert(diag_views(d.push(x)) =~= diag_views(d).push((x.kind, x.subject@)));
}

/// A declared variable: its key and its parsed raw text.
pub struct Variable {
    pub key: String,
    pub value: RawValue,
}

pub type VarModel = (Seq<char>, ValueModel);

pub open spec fn var_views(v: Seq<Variable>) -> Seq<VarModel> {
    v.map_values(|x: Variable| (x.key@, x.value@))
}

/// `i` is the first place in `vars` whose key is `key`.
pub open spec fn is_first_key(vars: Seq<VarModel>, key: Seq<char>, i: int) -> bool {
    &&& 0 <= i < vars.len()
    &&& vars[i].0 == key
    &&& forall|j: int| 0 <= j < i ==> #[trigger] vars[j].0 != key
}

pub open spec fn lookup(vars: Seq<VarModel>, key: Seq<char>) -> Option<int> {
    if exists|i: int| is_first_key(vars, key, i) {
        Some(choose|i: int| is_first_key(vars, key, i))
    } else {
        None
    }
}

/// Finds the variable declared under `key`.
pub fn find_variable(vars: &Vec<Variable>, key: &String) -> (r: Option<usize>)
    ensures
        match r {
            Some(i) => lookup(var_views(vars@), key@) == Some(i as int),
            None => lookup(var_views(vars@), key@) is None,
        },
{
    let ghost m = var_views(vars@);
    let mut i: usize = 0;
    while i < vars.len()
        invariant
            i <= vars.len(),
            m == var_views(vars@),
            forall|j: int| 0 <= j < i ==> #[trigger] m[j].0 != key@,
        decreases vars.len() - i,
    {
        if vars[i].key == *key {
            proof {
                assert(is_first_key(m, key@, i as int));
                let k = choose|k: int| is_first_key(m, key@, k);
                assert(k == i) by {
                    if k < i {
                        assert(m[k].0 != key@);
                    } else if k > i {
                        assert(m[i as int].0 != key@);
                    }
                }
            }
            return Some(i);
        }
        i = i + 1;
    }
    None
}

proof fn lemma_first_key_exists(vars: Seq<VarModel>, key: Seq<char>, j: int)
    requires
        0 <= j < vars.len(),
        vars[j].0 == key,
    ensures
        exists|i: int| is_first_key(vars, key, i),
    decreases j,
{
    if exists|l: int| 0 <= l < j && vars[l].0 == key {
        let l = choose|l: int| 0 <= l < j && vars[l].0 == key;
        lemma_first_key_exists(vars, key, l);
    } else {
        assert(is_first_key(vars, key, j));
    }
}

/// A key that `lookup` does not find is declared nowhere in the table.
pub proof fn lemma_lookup_none(vars: Seq<VarModel>, key: Seq<char>)
    requires
        lookup(vars, key) is None,
    ensures
        forall|j: int| 0 <= j < vars.len() ==> vars[j].0 != key,
{
    assert forall|j: int| 0 <= j < vars.len() implies vars[j].0 != key by {
        if vars[j].0 == key {
            lemma_first_key_exists(vars, key, j);
        }
    }
}

/// `"name": value`
pub open spec fn member_entry(name: Seq<char>, value: Seq<char>) -> Seq<char> {
    seq!['"'] + name + seq!['"', ':', ' '] + value
}

pub open spec fn list_sep() -> Seq<char> {
    seq![',', ' ']
}

pub open spec fn wrapped(open: char, body: Seq<char>, close: char) -> Seq<char> {
    seq![open] + body + seq![close]
}

/// A member literal's body inside braces with a space on each side: `{ body }`.
pub open spec fn spaced_braces(body: Seq<char>) -> Seq<char> {
    seq!['{', ' '] + body + seq![' ', '}']
}

/// How many of the flags are still clear.
pub open spec fn open_count(flags: Seq<bool>) -> nat
    decreases flags.len(),
{
    if flags.len() == 0 {
        0
    } else {
        open_count(flags.drop_last()) + if flags.last() {
            0nat
        } else {
            1nat
        }
    }
}

pub open spec fn no_flags(n: nat) -> Seq<bool> {
    Seq::new(n, |i: int| false)
}

/// The fragment of the variable at `idx` and the diagnostics met on the way,
/// where `flags` marks the variables whose resolution is in progress and
/// `fuel` bounds the depth.
pub open spec fn resolve_from(vars: Seq<VarModel>, flags: Seq<bool>, idx: int, fuel: nat) -> (Seq<char>, Seq<DiagModel>)
    decreases fuel, 0int,
{
    if fuel == 0 || !(0 <= idx < vars.len()) {
        (Seq::<char>::empty(), Seq::<DiagModel>::empty())
    } else {
        let inner = flags.update(idx, true);
        match vars[idx].1 {
            ValueModel::Scalar(t) => (t, Seq::<DiagModel>::empty()),
            ValueModel::Array(toks) => {
                let p = array_parts(vars, inner, toks, (fuel - 1) as nat);
                (wrapped('[', join(p.0, list_sep()), ']'), p.1)
            },
            ValueModel::Members(names) => {
                let p = member_parts(vars, inner, names, (fuel - 1) as nat);
                (spaced_braces(join(p.0, list_sep())), p.1)
            },
        }
    }
}

/// The elements of an array literal: a declared variable that is not in
/// progress is resolved; one in progress is a cycle, and its token stays as
/// it is; any other token is a literal and stays as it is.
pub open spec fn array_parts(vars: Seq<VarModel>, flags: Seq<bool>, toks: Seq<Seq<char>>, fuel: nat) -> (Seq<Seq<char>>, Seq<DiagModel>)
    decreases fuel, toks.len() + 1,
{
    if toks.len() == 0 {
        (Seq::<Seq<char>>::empty(), Seq::<DiagModel>::empty())
    } else {
        let p = array_parts(vars, flags, toks.drop_last(), fuel);
        let t = toks.last();
        match lookup(vars, t) {
            None => (p.0.push(t), p.1),
            Some(j) => if flags[j] {
                (p.0.push(t), p.1.push((DiagnosticKind::CircularReference, t)))
            } else {
                let r = resolve_from(vars, flags, j, fuel);
                (p.0.push(r.0), p.1 + r.1)
            },
        }
    }
}

/// The entries of a member list: a declared variable that is not in progress
/// gives `"name": fragment`; an undeclared one, or one in progress (a cycle),
/// is left out with a diagnostic.
pub open spec fn member_parts(vars: Seq<VarModel>, flags: Seq<bool>, names: Seq<Seq<char>>, fuel: nat) -> (Seq<Seq<char>>, Seq<DiagModel>)
    decreases fuel, names.len() + 1,
{
    if names.len() == 0 {
        (Seq::<Seq<char>>::empty(), Seq::<DiagModel>::empty())
    } else {
        let p = member_parts(vars, flags, names.drop_last(), fuel);
        let t = names.last();
        match lookup(vars, t) {
            None => (p.0, p.1.push((DiagnosticKind::UndefinedVariable, t))),
            Some(j) => if flags[j] {
                (
                    p.0,
                    p.1.push((DiagnosticKind::CircularReference, t)).push(
                        (DiagnosticKind::UndefinedVariable, t),
                    ),
                )
            } else {
                let r = resolve_from(vars, flags, j, fuel);
                (p.0.push(member_entry(t, r.0)), p.1 + r.1)
            },
        }
    }
}

/// The resolution of the variable at `idx`, started with nothing in progress.
pub open spec fn resolve_entry(vars: Seq<VarModel>, idx: int) -> (Seq<char>, Seq<DiagModel>) {
    resolve_from(vars, no_flags(vars.len()), idx, vars.len())
}

/// The fragment that `key` resolves to, if it is declared.
pub open spec fn resolved(vars: Seq<VarModel>, key: Seq<char>) -> Option<Seq<char>> {
    match lookup(vars, key) {
        Some(i) => Some(resolve_entry(vars, i).0),
        None => None,
    }
}

/// The diagnostics that resolving `key` meets.
pub open spec fn resolution_diags(vars: Seq<VarModel>, key: Seq<char>) -> Seq<DiagModel> {
    match lookup(vars, key) {
        Some(i) => resolve_entry(vars, i).1,
        None => Seq::<DiagModel>::empty(),
    }
}

proof fn lemma_open_count_set(flags: Seq<bool>, i: int)
    requires
        0 <= i < flags.len(),
        !flags[i],
    ensures
        open_count(flags.update(i, true)) + 1 == open_count(flags),
    decreases flags.len(),
{
    let u = flags.update(i, true);
    if i == flags.len() - 1 {
        assert(u.drop_last() =~= flags.drop_last());
    } else {
        assert(u.drop_last() =~= flags.drop_last().update(i, true));
        lemma_open_count_set(flags.drop_last(), i);
    }
}

proof fn lemma_open_count_none(n: nat)
    ensures
        open_count(no_flags(n)) == n,
    decreases n,
{
    if n > 0 {
        assert(no_flags(n).drop_last() =~= no_flags((n - 1) as nat));
        lemma_open_count_none((n - 1) as nat);
    }
}

fn with_flag(flags: &Vec<bool>, idx: usize) -> (r: Vec<bool>)
    requires
        idx < flags.len(),
    ensures
        r@ == flags@.update(idx as int, true),
{
    let mut r: Vec<bool> = Vec::new();
    let mut i: usize = 0;
    while i < flags.len()
        invariant
            i <= flags.len(),
            idx < flags.len(),
            r@ == flags@.update(idx as int, true).take(i as int),
        decreases flags.len() - i,
    {
        if i == idx {
            r.push(true);
        } else {
            r.push(flags[i]);
        }
        assert(r@ =~= flags@.update(idx as int, true).take(i + 1));
        i = i + 1;
    }
    assert(r@ =~= flags@.update(idx as int, true));
    r
}

pub(crate) fn wrap(open: char, body: &String, close: char) -> (r: String)
    ensures
        r@ == wrapped(open, body@, close),
{
    let mut r = String::new();
    push_char(&mut r, open);
    r.append(body.as_str());
    push_char(&mut r, close);
    assert(r@ =~= wrapped(open, body@, close));
    r
}

fn wrap_spaced(body: &String) -> (r: String)
    ensures
        r@ == spaced_braces(body@),
{
    let mut r = String::new();
    push_char(&mut r, '{');
    push_char(&mut r, ' ');
    r.append(body.as_str());
    push_char(&mut r, ' ');
    push_char(&mut r, '}');
    assert(r@ =~= spaced_braces(body@));
    r
}

pub(crate) fn entry(name: &String, value: &String) -> (r: String)
    ensures
        r@ == member_entry(name@, value@),
{
    let mut r = String::new();
    push_char(&mut r, '"');
    r.append(name.as_str());
    push_char(&mut r, '"');
    push_char(&mut r, ':');
    push_char(&mut r, ' ');
    r.append(value.as_str());
    assert(r@ =~= member_entry(name@, value@));
    r
}

pub(crate) fn join_list(parts: &Vec<String>) -> (r: String)
    ensures
        r@ == join(views(parts@), list_sep()),
{
    proof {
        reveal_strlit(", ");
    }
    assert(", "@ =~= list_sep());
    join_with(parts, ", ")
}

pub(crate) fn diagnostic(kind: DiagnosticKind, subject: &String) -> (r: Diagnostic)
    ensures
        r.kind == kind,
        r.subject@ == subject@,
{
    Diagnostic { kind, subject: subject.clone() }
}

/// Resolves the variable at `idx` while the variables marked in `flags` are
/// in progress; the diagnostics met are added to `diags`.
fn resolve_index(vars: &Vec<Variable>, flags: &Vec<bool>, idx: usize, diags: &mut Vec<Diagnostic>) -> (r: String)
    requires
        flags.len() == vars.len(),
        idx < vars.len(),
        !flags[idx as int],
    ensures
        r@ == resolve_from(var_views(vars@), flags@, idx as int, open_count(flags@)).0,
        diag_views(final(diags)@) == diag_views(old(diags)@) + resolve_from(
            var_views(vars@),
            flags@,
            idx as int,
            open_count(flags@),
        ).1,
    decreases open_count(flags@),
{
    let ghost m = var_views(vars@);
    let ghost d0 = diags@;
    let inner = with_flag(flags, idx);
    let ghost fuel = open_count(inner@);
    proof {
        lemma_open_count_set(flags@, idx as int);
    }
    match &vars[idx].value {
        RawValue::Scalar(t) => {
            assert(diag_views(d0) + Seq::<DiagModel>::empty() =~= diag_views(d0));
            t.clone()
        },
        RawValue::Array(toks) => {
            let ghost tv = views(toks@);
            let mut parts: Vec<String> = Vec::new();
            let mut i: usize = 0;
            assert(tv.take(0) =~= Seq::<Seq<char>>::empty());
            assert(diag_views(d0) + Seq::<DiagModel>::empty() =~= diag_views(d0));
            while i < toks.len()
                invariant
                    i <= toks.len(),
                    m == var_views(vars@),
                    tv == views(toks@),
                    inner.len() == vars.len(),
                    fuel == open_count(inner@),
                    fuel < open_count(flags@),
                    views(parts@) == array_parts(m, inner@, tv.take(i as int), fuel).0,
                    diag_views(diags@) == diag_views(d0) + array_parts(m, inner@, tv.take(i as int), fuel).1,
                decreases toks.len() - i,
            {
                let t = &toks[i];
                let ghost before = diags@;
                proof {
                    assert(tv.take(i + 1).drop_last() =~= tv.take(i as int));
                    assert(tv.take(i + 1).last() == t@);
                }
                match find_variable(vars, t) {
                    None => {
                        let c = t.clone();
                        proof {
                            lemma_views_push(parts@, c);
                        }
                        parts.push(c);
                    },
                    Some(j) => {
                        if inner[j] {
                            let c = t.clone();
                            proof {
                                lemma_views_push(parts@, c);
                            }
                            parts.push(c);
                            let d = diagnostic(DiagnosticKind::CircularReference, t);
                            proof {
                                lemma_diag_views_push(diags@, d);
                            }
                            diags.push(d);
                            assert(diag_views(diags@) =~= diag_views(d0) + array_parts(m, inner@, tv.take(i + 1), fuel).1);
                        } else {
                            let f = resolve_index(vars, &inner, j, diags);
                            proof {
                                lemma_views_push(parts@, f);
                            }
                            parts.push(f);
                            assert(diag_views(diags@) =~= diag_views(d0) + array_parts(m, inner@, tv.take(i + 1), fuel).1);
                        }
                    },
                }
                i = i + 1;
            }
            assert(tv.take(toks.len() as int) =~= tv);
            let body = join_list(&parts);
            wrap('[', &body, ']')
        },
        RawValue::Members(names) => {
            let ghost tv = views(names@);
            let mut parts: Vec<String> = Vec::new();
            let mut i: usize = 0;
            assert(tv.take(0) =~= Seq::<Seq<char>>::empty());
            assert(diag_views(d0) + Seq::<DiagModel>::empty() =~= diag_views(d0));
            while i < names.len()
                invariant
                    i <= names.len(),
                    m == var_views(vars@),
                    tv == views(names@),
                    inner.len() == vars.len(),
                    fuel == open_count(inner@),
                    fuel < open_count(flags@),
                    views(parts@) == member_parts(m, inner@, tv.take(i as int), fuel).0,
                    diag_views(diags@) == diag_views(d0) + member_parts(m, inner@, tv.take(i as int), fuel).1,
                decreases names.len() - i,
            {
                let t = &names[i];
                proof {
                    assert(tv.take(i + 1).drop_last() =~= tv.take(i as int));
                    assert(tv.take(i + 1).last() == t@);
                }
                match find_variable(vars, t) {
                    None => {
                        let d = diagnostic(DiagnosticKind::UndefinedVariable, t);
                        proof {
                            lemma_diag_views_push(diags@, d);
                        }
                        diags.push(d);
                        assert(diag_views(diags@) =~= diag_views(d0) + member_parts(m, inner@, tv.take(i + 1), fuel).1);
                    },
                    Some(j) => {
                        if inner[j] {
                            let d = diagnostic(DiagnosticKind::CircularReference, t);
                            proof {
                                lemma_diag_views_push(diags@, d);
                            }
                            diags.push(d);
                            let d2 = diagnostic(DiagnosticKind::UndefinedVariable, t);
                            proof {
                                lemma_diag_views_push(diags@, d2);
                            }
                            diags.push(d2);
                            assert(diag_views(diags@) =~= diag_views(d0) + member_parts(m, inner@, tv.take(i + 1), fuel).1);
                        } else {
                            let f = resolve_index(vars, &inner, j, diags);
                            let e = entry(t, &f);
                            proof {
                                lemma_views_push(parts@, e);
                            }
                            parts.push(e);
                            assert(diag_views(diags@) =~= diag_views(d0) + member_parts(m, inner@, tv.take(i + 1), fuel).1);
                        }
                    },
                }
                i = i + 1;
            }
            assert(tv.take(names.len() as int) =~= tv);
            let body = join_list(&parts);
            wrap_spaced(&body)
        },
    }
}

/// Resolves `key` from a fresh start, with nothing in progress: its fragment
/// if it is declared, else `None`. The diagnostics met are added to `diags`.
pub fn resolve(vars: &Vec<Variable>, key: &String, diags: &mut Vec<Diagnostic>) -> (r: Option<String>)
    ensures
        match r {
            Some(s) => resolved(var_views(vars@), key@) == Some(s@),
            None => resolved(var_views(vars@), key@) is None,
        },
        diag_views(final(diags)@) == diag_views(old(diags)@) + resolution_diags(var_views(vars@), key@),
{
    match find_variable(vars, key) {
        None => {
            assert(diag_views(old(diags)@) + Seq::<DiagModel>::empty() =~= diag_views(old(diags)@));
            None
        },
        Some(i) => Some(resolve_fresh(vars, i, diags)),
    }
}

/// Resolves the variable at `idx` from a fresh start.
pub fn resolve_fresh(vars: &Vec<Variable>, idx: usize, diags: &mut Vec<Diagnostic>) -> (r: String)
    requires
        idx < vars.len(),
    ensures
        r@ == resolve_entry(var_views(vars@), idx as int).0,
        diag_views(final(diags)@) == diag_views(old(diags)@) + resolve_entry(var_views(vars@), idx as int).1,
{
    let mut flags: Vec<bool> = Vec::new();
    let mut i: usize = 0;
    while i < vars.len()
        invariant
            i <= vars.len(),
            flags@ == no_flags(i as nat),
        decreases vars.len() - i,
    {
        flags.push(false);
        assert(flags@ =~= no_flags((i + 1) as nat));
        i = i + 1;
    }
    proof {
        lemma_open_count_none(vars.len() as nat);
        assert(var_views(vars@).len() == vars.len());
    }
    resolve_index(vars, &flags, idx, diags)
}

/// Two independent calls of `resolve` on one table and one key (each result
/// `r` and diagnostics list `before` / `after` meeting `resolve`'s
/// postcondition) give byte-identical fragments and add the same
/// diagnostics, whatever each list held before.
pub proof fn lemma_resolution_repeatable(
    vars: Seq<Variable>,
    key: String,
    before1: Seq<Diagnostic>,
    after1: Seq<Diagnostic>,
    r1: Option<String>,
    before2: Seq<Diagnostic>,
    after2: Seq<Diagnostic>,
    r2: Option<String>,
)
    requires
        match r1 {
            Some(s) => resolved(var_views(vars), key@) == Some(s@),
            None => resolved(var_views(vars), key@) is None,
        },
        diag_views(after1) == diag_views(before1) + resolution_diags(var_views(vars), key@),
        match r2 {
            Some(s) => resolved(var_views(vars), key@) == Some(s@),
            None => resolved(var_views(vars), key@) is None,
        },
        diag_views(after2) == diag_views(before2) + resolution_diags(var_views(vars), key@),
    ensures
        r1 is Some <==> r2 is Some,
        r1 is Some ==> r1.unwrap()@ == r2.unwrap()@,
        diag_views(after1).subrange(before1.len() as int, after1.len() as int) == diag_views(after2).subrange(
            before2.len() as int,
            after2.len() as int,
        ),
{
    let x = resolution_diags(var_views(vars), key@);
    assert(diag_views(before1).len() == before1.len());
    assert(diag_views(after1).len() == after1.len());
    assert(diag_views(before2).len() == before2.len());
    assert(diag_views(after2).len() == after2.len());
    assert(diag_views(after1).subrange(before1.len() as int, after1.len() as int) =~= x);
    assert(diag_views(after2).subrange(before2.len() as int, after2.len() as int) =~= x);
}

/// No diagnostic in `d` is an `UnusedVariable` warning.
pub open spec fn no_unused_warning(d: Seq<DiagModel>) -> bool {
    forall|k: int| 0 <= k < d.len() ==> (#[trigger] d[k]).0 != DiagnosticKind::UnusedVariable
}

pub proof fn lemma_no_unused_add(a: Seq<DiagModel>, b: Seq<DiagModel>)
    requires
        no_unused_warning(a),
        no_unused_warning(b),
    ensures
        no_unused_warning(a + b),
{
    assert forall|k: int| 0 <= k < (a + b).len() implies (#[trigger] (a + b)[k]).0 != DiagnosticKind::UnusedVariable by {
        if k >= a.len() {
            assert((a + b)[k] == b[k - a.len()]);
        }
    }
}

/// The resolver never reports a variable unused.
pub proof fn lemma_resolve_from_no_unused(vars: Seq<VarModel>, flags: Seq<bool>, idx: int, fuel: nat)
    ensures
        no_unused_warning(resolve_from(vars, flags, idx, fuel).1),
    decreases fuel, 0int,
{
    if fuel > 0 && 0 <= idx < vars.len() {
        let inner = flags.update(idx, true);
        match vars[idx].1 {
            ValueModel::Scalar(_) => {},
            ValueModel::Array(toks) => lemma_array_parts_no_unused(vars, inner, toks, (fuel - 1) as nat),
            ValueModel::Members(names) => lemma_member_parts_no_unused(vars, inner, names, (fuel - 1) as nat),
        }
    }
}

proof fn lemma_array_parts_no_unused(vars: Seq<VarModel>, flags: Seq<bool>, toks: Seq<Seq<char>>, fuel: nat)
    ensures
        no_unused_warning(array_parts(vars, flags, toks, fuel).1),
    decreases fuel, toks.len() + 1,
{
    if toks.len() > 0 {
        lemma_array_parts_no_unused(vars, flags, toks.drop_last(), fuel);
        let p = array_parts(vars, flags, toks.drop_last(), fuel);
        let t = toks.last();
        match lookup(vars, t) {
            None => {},
            Some(j) => if flags[j] {
                let d = p.1.push((DiagnosticKind::CircularReference, t));
                assert forall|k: int| 0 <= k < d.len() implies (#[trigger] d[k]).0 != DiagnosticKind::UnusedVariable by {
                    if k < p.1.len() {
                        assert(d[k] == p.1[k]);
                    }
                }
            } else {
                lemma_resolve_from_no_unused(vars, flags, j, fuel);
                lemma_no_unused_add(p.1, resolve_from(vars, flags, j, fuel).1);
            },
        }
    }
}

proof fn lemma_member_parts_no_unused(vars: Seq<VarModel>, flags: Seq<bool>, names: Seq<Seq<char>>, fuel: nat)
    ensures
        no_unused_warning(member_parts(vars, flags, names, fuel).1),
    decreases fuel, names.len() + 1,
{
    if names.len() > 0 {
        lemma_member_parts_no_unused(vars, flags, names.drop_last(), fuel);
        let p = member_parts(vars, flags, names.drop_last(), fuel);
        let t = names.last();
        match lookup(vars, t) {
            None => {
                let d = p.1.push((DiagnosticKind::UndefinedVariable, t));
                assert forall|k: int| 0 <= k < d.len() implies (#[trigger] d[k]).0 != DiagnosticKind::UnusedVariable by {
                    if k < p.1.len() {
                        assert(d[k] == p.1[k]);
                    }
                }
            },
            Some(j) => if flags[j] {
                let d1 = p.1.push((DiagnosticKind::CircularReference, t));
                let d = d1.push((DiagnosticKind::UndefinedVariable, t));
                assert forall|k: int| 0 <= k < d.len() implies (#[trigger] d[k]).0 != DiagnosticKind::UnusedVariable by {
                    if k < p.1.len() {
                        assert(d[k] == p.1[k]);
                    }
                }
            } else {
                lemma_resolve_from_no_unused(vars, flags, j, fuel);
                lemma_no_unused_add(p.1, resolve_from(vars, flags, j, fuel).1);
            },
        }
    }
}

/// Each variable key stands once in the table.
pub open spec fn keys_unique(vars: Seq<VarModel>) -> bool {
    forall|i: int, j: int| 0 <= i < j < vars.len() ==> vars[i].0 != vars[j].0
}

/// In a table whose keys stand once, `lookup` finds each key where it stands.
pub proof fn lemma_lookup_unique(vars: Seq<VarModel>, i: int)
    requires
        keys_unique(vars),
        0 <= i < vars.len(),
    ensures
        lookup(vars, vars[i].0) == Some(i),
{
    let key = vars[i].0;
    assert forall|j: int| 0 <= j < i implies #[trigger] vars[j].0 != key by {
        assert(vars[j].0 != vars[i].0);
    }
    assert(is_first_key(vars, key, i));
    let k = choose|k: int| is_first_key(vars, key, k);
    assert(k == i) by {
        if k < i {
            assert(vars[k].0 != key);
        } else if k > i {
            assert(vars[i].0 != key);
        }
    }
}

/// A variable `x = [x]` whose array names only its own key resolves to
/// `[x]`: the reference is a cycle, reported once, and its token is kept.
pub proof fn lemma_self_reference(vars: Seq<VarModel>, i: int)
    requires
        keys_unique(vars),
        0 <= i < vars.len(),
        vars[i].1 == ValueModel::Array(seq![vars[i].0]),
    ensures
        resolve_entry(vars, i) == (
            wrapped('[', vars[i].0, ']'),
            seq![(DiagnosticKind::CircularReference, vars[i].0)],
        ),
{
    let x = vars[i].0;
    let n = vars.len();
    let inner = no_flags(n).update(i, true);
    let toks = seq![x];
    lemma_lookup_unique(vars, i);
    assert(toks.drop_last() =~= Seq::<Seq<char>>::empty());
    assert(toks.len() == 1 && toks.last() == x);
    assert(inner[i]);
    let fuel = (n - 1) as nat;
    let prev = array_parts(vars, inner, toks.drop_last(), fuel);
    assert(prev.0 == Seq::<Seq<char>>::empty() && prev.1 == Seq::<DiagModel>::empty());
    let p = array_parts(vars, inner, toks, fuel);
    assert(p == (prev.0.push(x), prev.1.push((DiagnosticKind::CircularReference, x))));
    assert(p.0 == seq![x]) by {
        assert(Seq::<Seq<char>>::empty().push(x) =~= seq![x]);
    }
    assert(p.1 == seq![(DiagnosticKind::CircularReference, x)]) by {
        assert(Seq::<DiagModel>::empty().push((DiagnosticKind::CircularReference, x)) =~= seq![
            (DiagnosticKind::CircularReference, x),
        ]);
    }
    assert(join(p.0, list_sep()) == x);
}

proof fn lemma_literal_parts(vars: Seq<VarModel>, flags: Seq<bool>, toks: Seq<Seq<char>>, fuel: nat)
    requires
        forall|k: int| 0 <= k < toks.len() ==> lookup(vars, #[trigger] toks[k]) is None,
    ensures
        array_parts(vars, flags, toks, fuel) == (toks, Seq::<DiagModel>::empty()),
    decreases toks.len(),
{
    if toks.len() > 0 {
        let rest = toks.drop_last();
        assert forall|k: int| 0 <= k < rest.len() implies lookup(vars, #[trigger] rest[k]) is None by {
            assert(rest[k] == toks[k]);
        }
        lemma_literal_parts(vars, flags, rest, fuel);
        assert(lookup(vars, toks[toks.len() - 1]) is None);
        assert(rest.push(toks.last()) =~= toks);
    }
}

/// An array whose tokens are all literals (no token is a declared key)
/// resolves to those tokens in their order, with no diagnostic.
pub proof fn lemma_literal_array(vars: Seq<VarModel>, i: int, toks: Seq<Seq<char>>)
    requires
        0 <= i < vars.len(),
        vars[i].1 == ValueModel::Array(toks),
        forall|k: int| 0 <= k < toks.len() ==> lookup(vars, #[trigger] toks[k]) is None,
    ensures
        resolve_entry(vars, i) == (wrapped('[', join(toks, list_sep()), ']'), Seq::<DiagModel>::empty()),
{
    let n = vars.len();
    lemma_literal_parts(vars, no_flags(n).update(i, true), toks, (n - 1) as nat);
}

/// An array `[b]` whose one token names another variable `b` with a scalar
/// value `s` resolves to `[s]`, with no diagnostic.
pub proof fn lemma_nested_substitution(vars: Seq<VarModel>, i: int, j: int, s: Seq<char>)
    requires
        keys_unique(vars),
        0 <= i < vars.len(),
        0 <= j < vars.len(),
        i != j,
        vars[i].1 == ValueModel::Array(seq![vars[j].0]),
        vars[j].1 == ValueModel::Scalar(s),
    ensures
        resolve_entry(vars, i) == (wrapped('[', s, ']'), Seq::<DiagModel>::empty()),
{
    let b = vars[j].0;
    let n = vars.len();
    let inner = no_flags(n).update(i, true);
    let toks = seq![b];
    let fuel = (n - 1) as nat;
    lemma_lookup_unique(vars, j);
    assert(toks.drop_last() =~= Seq::<Seq<char>>::empty());
    assert(toks.len() == 1 && toks.last() == b);
    assert(!inner[j]);
    let prev = array_parts(vars, inner, toks.drop_last(), fuel);
    assert(prev.0 == Seq::<Seq<char>>::empty() && prev.1 == Seq::<DiagModel>::empty());
    assert(fuel > 0);
    let r = resolve_from(vars, inner, j, fuel);
    assert(r == (s, Seq::<DiagModel>::empty()));
    let p = array_parts(vars, inner, toks, fuel);
    assert(p == (prev.0.push(s), prev.1 + r.1));
    assert(p.0 =~= seq![s]);
    assert(p.1 =~= Seq::<DiagModel>::empty());
    assert(join(p.0, list_sep()) == s);
}

} // verus!
