//! Line ingestion, the resolution pass, object assembly and the unused
//! variable check: the whole compile from source text to a JSON document.
use vstd::prelude::*;
use crate::classify::{classify, classify_chars, clean_line, strip_comment, Line, LineModel, RawValue, ValueModel};
use crate::resolve::{
    diag_views, diagnostic, is_first_key, keys_unique, lemma_lookup_none, lemma_no_unused_add, lemma_resolve_from_no_unused, no_flags, no_unused_warning, entry, find_variable, join_list, wrap, lemma_diag_views_push, list_sep, lookup, member_entry, resolve_entry,
    resolve_fresh, resolved, var_views, wrapped, DiagModel, Diagnostic, DiagnosticKind, VarModel, Variable,
};
use crate::text::{fields, join, join_with, lemma_views_push, push_char, string_of, to_chars, views};

verus! {

/// A declared object: its key and its member names.
pub struct ObjectDecl {
    pub key: String,
    pub members: Vec<String>,
}

pub type ObjModel = (Seq<char>, Seq<Seq<char>>);

pub open spec fn obj_views(o: Seq<ObjectDecl>) -> Seq<ObjModel> {
    o.map_values(|x: ObjectDecl| (x.key@, views(x.members@)))
}

/// The declaration table: variables and objects, each in the order of their
/// first declaration, each key once.
pub struct Declarations {
    pub variables: Vec<Variable>,
    pub objects: Vec<ObjectDecl>,
}

pub open spec fn opt_view(o: Option<String>) -> Option<Seq<char>> {
    match o {
        Some(s) => Some(s@),
        None => None,
    }
}

/// `i` is the first place in `objs` whose key is `key`.
pub open spec fn is_first_object(objs: Seq<ObjModel>, key: Seq<char>, i: int) -> bool {
    &&& 0 <= i < objs.len()
    &&& objs[i].0 == key
    &&& forall|j: int| 0 <= j < i ==> #[trigger] objs[j].0 != key
}

pub open spec fn lookup_object(objs: Seq<ObjModel>, key: Seq<char>) -> Option<int> {
    if exists|i: int| is_first_object(objs, key, i) {
        Some(choose|i: int| is_first_object(objs, key, i))
    } else {
        None
    }
}

/// Declares a variable: a key declared before keeps its place and takes the
/// new value; a new key goes at the end.
pub open spec fn put_variable(vars: Seq<VarModel>, key: Seq<char>, value: ValueModel) -> Seq<VarModel> {
    match lookup(vars, key) {
        Some(i) => vars.update(i, (key, value)),
        None => vars.push((key, value)),
    }
}

pub open spec fn put_object(objs: Seq<ObjModel>, key: Seq<char>, members: Seq<Seq<char>>) -> Seq<ObjModel> {
    match lookup_object(objs, key) {
        Some(i) => objs.update(i, (key, members)),
        None => objs.push((key, members)),
    }
}

/// The lines with their comments taken off, trimmed, blank ones left out.
pub open spec fn keep_lines(ls: Seq<Seq<char>>) -> Seq<Seq<char>>
    decreases ls.len(),
{
    if ls.len() == 0 {
        Seq::<Seq<char>>::empty()
    } else {
        let rest = keep_lines(ls.drop_last());
        let c = clean_line(ls.last());
        if c.len() > 0 {
            rest.push(c)
        } else {
            rest
        }
    }
}

pub open spec fn source_lines(text: Seq<char>) -> Seq<Seq<char>> {
    keep_lines(fields(text, '\n'))
}

/// Variables, objects, and the line that halted ingestion, if one did.
pub type IngestModel = (Seq<VarModel>, Seq<ObjModel>, Option<Seq<char>>);

/// One line taken in: once halted, nothing more is taken in.
pub open spec fn ingest_step(st: IngestModel, line: Seq<char>) -> IngestModel {
    if st.2 is Some {
        st
    } else {
        match classify(line) {
            LineModel::Variable(k, v) => (put_variable(st.0, k, v), st.1, None),
            LineModel::Object(k, m) => (st.0, put_object(st.1, k, m), None),
            LineModel::Unclassifiable => (st.0, st.1, Some(line)),
        }
    }
}

pub open spec fn ingest(lines: Seq<Seq<char>>) -> IngestModel
    decreases lines.len(),
{
    if lines.len() == 0 {
        (Seq::<VarModel>::empty(), Seq::<ObjModel>::empty(), None)
    } else {
        ingest_step(ingest(lines.drop_last()), lines.last())
    }
}

pub fn find_object(objs: &Vec<ObjectDecl>, key: &String) -> (r: Option<usize>)
    ensures
        match r {
            Some(i) => lookup_object(obj_views(objs@), key@) == Some(i as int),
            None => lookup_object(obj_views(objs@), key@) is None,
        },
{
    let ghost m = obj_views(objs@);
    let mut i: usize = 0;
    while i < objs.len()
        invariant
            i <= objs.len(),
            m == obj_views(objs@),
            forall|j: int| 0 <= j < i ==> #[trigger] m[j].0 != key@,
        decreases objs.len() - i,
    {
        if objs[i].key == *key {
            proof {
                assert(is_first_object(m, key@, i as int));
                let k = choose|k: int| is_first_object(m, key@, k);
                assert(k == i) by {
                    if k < i {
                        assert(m[k].0 != key@);
                    } else if k > i {
                        assert(m[i as int].0 != key@);
                    }
                }
            }
            return Some(i);
        }
        i = i + 1;
    }
    None
}

fn put_var(vars: &mut Vec<Variable>, key: String, value: RawValue)
    ensures
        var_views(final(vars)@) == put_variable(var_views(old(vars)@), key@, value@),
{
    let ghost k = key@;
    let ghost x = value@;
    match find_variable(vars, &key) {
        Some(i) => {
            vars.set(i, Variable { key, value });
            assert(var_views(vars@) =~= var_views(old(vars)@).update(i as int, (k, x)));
        },
        None => {
            vars.push(Variable { key, value });
            assert(var_views(vars@) =~= var_views(old(vars)@).push((k, x)));
        },
    }
}

fn put_obj(objs: &mut Vec<ObjectDecl>, key: String, members: Vec<String>)
    ensures
        obj_views(final(objs)@) == put_object(obj_views(old(objs)@), key@, views(members@)),
{
    let ghost k = key@;
    let ghost x = views(members@);
    match find_object(objs, &key) {
        Some(i) => {
            objs.set(i, ObjectDecl { key, members });
            assert(obj_views(objs@) =~= obj_views(old(objs)@).update(i as int, (k, x)));
        },
        None => {
            objs.push(ObjectDecl { key, members });
            assert(obj_views(objs@) =~= obj_views(old(objs)@).push((k, x)));
        },
    }
}

/// Takes in the raw line `v[lo..hi]`.
fn take_line(
    vars: &mut Vec<Variable>,
    objs: &mut Vec<ObjectDecl>,
    halt: &mut Option<String>,
    v: &Vec<char>,
    lo: usize,
    hi: usize,
)
    requires
        lo <= hi <= v.len(),
    ensures
        ({
            let c = clean_line(v@.subrange(lo as int, hi as int));
            let before = (var_views(old(vars)@), obj_views(old(objs)@), opt_view(*old(halt)));
            let after = (var_views(final(vars)@), obj_views(final(objs)@), opt_view(*final(halt)));
            after == if c.len() > 0 {
                ingest_step(before, c)
            } else {
                before
            }
        }),
{
    if halt.is_some() {
        return;
    }
    let c = strip_comment(v, lo, hi);
    if c.len() == 0 {
        return;
    }
    match classify_chars(&c) {
        Line::Variable { key, value } => put_var(vars, key, value),
        Line::Object { key, members } => put_obj(objs, key, members),
        Line::Unclassifiable => {
            let s = string_of(&c, 0, c.len());
            assert(c@.subrange(0, c.len() as int) =~= c@);
            *halt = Some(s);
        },
    }
}

/// Splits `text` into lines and takes them in, one after another, until a
/// line that is neither a variable nor an object declaration: that line is
/// returned beside the declarations taken in before it.
pub fn declare(text: &str) -> (r: (Declarations, Option<String>))
    ensures
        (var_views(r.0.variables@), obj_views(r.0.objects@), opt_view(r.1)) == ingest(source_lines(text@)),
{
    let v = to_chars(text);
    let mut vars: Vec<Variable> = Vec::new();
    let mut objs: Vec<ObjectDecl> = Vec::new();
    let mut halt: Option<String> = None;
    let ghost mut done: Seq<Seq<char>> = Seq::empty();
    let mut start: usize = 0;
    let mut j: usize = 0;
    assert(v@.subrange(0, 0) =~= Seq::<char>::empty());
    assert(fields(Seq::<char>::empty(), '\n') == seq![Seq::<char>::empty()]);
    assert(var_views(vars@) =~= Seq::<VarModel>::empty());
    assert(obj_views(objs@) =~= Seq::<ObjModel>::empty());
    while j < v.len()
        invariant
            start <= j <= v.len(),
            fields(v@.subrange(0, j as int), '\n') == done.push(v@.subrange(start as int, j as int)),
            (var_views(vars@), obj_views(objs@), opt_view(halt)) == ingest(keep_lines(done)),
        decreases v.len() - j,
    {
        let ghost s1 = v@.subrange(0, j + 1);
        assert(s1.drop_last() =~= v@.subrange(0, j as int));
        if v[j] == '\n' {
            let ghost line = v@.subrange(start as int, j as int);
            take_line(&mut vars, &mut objs, &mut halt, &v, start, j);
            proof {
                assert(done.push(line).drop_last() =~= done);
                let c = clean_line(line);
                if c.len() > 0 {
                    assert(keep_lines(done.push(line)).drop_last() =~= keep_lines(done));
                }
                done = done.push(line);
                assert(v@.subrange(j + 1, j + 1) =~= Seq::<char>::empty());
            }
            start = j + 1;
        } else {
            proof {
                assert(v@.subrange(start as int, j + 1) =~= v@.subrange(start as int, j as int).push(v@[j as int]));
                assert(done.push(v@.subrange(start as int, j + 1)) =~= done.push(v@.subrange(start as int, j as int)).update(
                    done.len() as int, v@.subrange(start as int, j as int).push(v@[j as int])));
            }
        }
        j = j + 1;
    }
    let ghost line = v@.subrange(start as int, v.len() as int);
    take_line(&mut vars, &mut objs, &mut halt, &v, start, v.len());
    proof {
        assert(v@.subrange(0, v.len() as int) =~= text@);
        assert(done.push(line).drop_last() =~= done);
        let c = clean_line(line);
        if c.len() > 0 {
            assert(keep_lines(done.push(line)).drop_last() =~= keep_lines(done));
        }
    }
    (Declarations { variables: vars, objects: objs }, halt)
}

/// The diagnostics of the resolution pass over the first `n` variables.
pub open spec fn pass_diags(vars: Seq<VarModel>, n: nat) -> Seq<DiagModel>
    decreases n,
{
    if n == 0 {
        Seq::<DiagModel>::empty()
    } else {
        pass_diags(vars, (n - 1) as nat) + resolve_entry(vars, n - 1).1
    }
}

pub open spec fn pass_fragments(vars: Seq<VarModel>) -> Seq<Seq<char>> {
    Seq::new(vars.len(), |i: int| resolve_entry(vars, i).0)
}

/// Resolves every declared variable, each from a fresh start: the fragments
/// come in the order of the table.
pub fn resolve_all(vars: &Vec<Variable>, diags: &mut Vec<Diagnostic>) -> (r: Vec<String>)
    ensures
        views(r@) == pass_fragments(var_views(vars@)),
        diag_views(final(diags)@) == diag_views(old(diags)@) + pass_diags(var_views(vars@), vars.len() as nat),
{
    let ghost m = var_views(vars@);
    let ghost d0 = diags@;
    let mut r: Vec<String> = Vec::new();
    let mut i: usize = 0;
    assert(diag_views(d0) + Seq::<DiagModel>::empty() =~= diag_views(d0));
    while i < vars.len()
        invariant
            i <= vars.len(),
            m == var_views(vars@),
            views(r@) =~= Seq::new(i as nat, |k: int| resolve_entry(m, k).0),
            diag_views(diags@) == diag_views(d0) + pass_diags(m, i as nat),
        decreases vars.len() - i,
    {
        let f = resolve_fresh(vars, i, diags);
        proof {
            lemma_views_push(r@, f);
        }
        r.push(f);
        assert(diag_views(diags@) =~= diag_views(d0) + pass_diags(m, (i + 1) as nat));
        i = i + 1;
    }
    r
}

/// The entries of an object: each member that resolves gives
/// `"name": fragment`; one that does not is left out with a diagnostic.
pub open spec fn object_entries(vars: Seq<VarModel>, members: Seq<Seq<char>>) -> (Seq<Seq<char>>, Seq<DiagModel>)
    decreases members.len(),
{
    if members.len() == 0 {
        (Seq::<Seq<char>>::empty(), Seq::<DiagModel>::empty())
    } else {
        let p = object_entries(vars, members.drop_last());
        let m = members.last();
        match resolved(vars, m) {
            Some(f) => (p.0.push(member_entry(m, f)), p.1),
            None => (p.0, p.1.push((DiagnosticKind::UndefinedVariable, m))),
        }
    }
}

/// `"key": { entries }`
pub open spec fn object_fragment(vars: Seq<VarModel>, obj: ObjModel) -> Seq<char> {
    member_entry(obj.0, wrapped('{', join(object_entries(vars, obj.1).0, list_sep()), '}'))
}

/// The fragments of all objects, in order, and the diagnostics met.
pub open spec fn assembly(vars: Seq<VarModel>, objs: Seq<ObjModel>) -> (Seq<Seq<char>>, Seq<DiagModel>)
    decreases objs.len(),
{
    if objs.len() == 0 {
        (Seq::<Seq<char>>::empty(), Seq::<DiagModel>::empty())
    } else {
        let p = assembly(vars, objs.drop_last());
        (p.0.push(object_fragment(vars, objs.last())), p.1 + object_entries(vars, objs.last().1).1)
    }
}

/// The JSON document: the object fragments joined inside one pair of braces.
pub open spec fn document(vars: Seq<VarModel>, objs: Seq<ObjModel>) -> Seq<char> {
    wrapped('{', join(assembly(vars, objs).0, list_sep()), '}')
}


/// Builds the fragment of one object from the resolved fragments `frags` of
/// the variables.
pub fn assemble_object(vars: &Vec<Variable>, frags: &Vec<String>, obj: &ObjectDecl, diags: &mut Vec<Diagnostic>) -> (r: String)
    requires
        views(frags@) == pass_fragments(var_views(vars@)),
    ensures
        r@ == object_fragment(var_views(vars@), (obj.key@, views(obj.members@))),
        diag_views(final(diags)@) == diag_views(old(diags)@) + object_entries(var_views(vars@), views(obj.members@)).1,
{
    let ghost m = var_views(vars@);
    let ghost d0 = diags@;
    let ghost tv = views(obj.members@);
    let mut parts: Vec<String> = Vec::new();
    let mut i: usize = 0;
    assert(tv.take(0) =~= Seq::<Seq<char>>::empty());
    assert(diag_views(d0) + Seq::<DiagModel>::empty() =~= diag_views(d0));
    while i < obj.members.len()
        invariant
            i <= obj.members.len(),
            m == var_views(vars@),
            tv == views(obj.members@),
            views(frags@) == pass_fragments(m),
            views(parts@) == object_entries(m, tv.take(i as int)).0,
            diag_views(diags@) == diag_views(d0) + object_entries(m, tv.take(i as int)).1,
        decreases obj.members.len() - i,
    {
        let t = &obj.members[i];
        proof {
            assert(tv.take(i + 1).drop_last() =~= tv.take(i as int));
            assert(tv.take(i + 1).last() == t@);
        }
        match find_variable(vars, t) {
            Some(j) => {
                proof {
                    assert(is_first_key(m, t@, j as int));
                    assert(views(frags@).len() == frags@.len());
                    assert(frags@[j as int]@ == views(frags@)[j as int]);
                }
                let e = entry(t, &frags[j]);
                proof {
                    lemma_views_push(parts@, e);
                }
                parts.push(e);
            },
            None => {
                let d = diagnostic(DiagnosticKind::UndefinedVariable, t);
                proof {
                    lemma_diag_views_push(diags@, d);
                }
                diags.push(d);
                assert(diag_views(diags@) =~= diag_views(d0) + object_entries(m, tv.take(i + 1)).1);
            },
        }
        i = i + 1;
    }
    assert(tv.take(obj.members.len() as int) =~= tv);
    let body = join_list(&parts);
    let inner = wrap('{', &body, '}');
    entry(&obj.key, &inner)
}

/// Builds the document from the objects and the resolved fragments `frags`
/// of the variables.
pub fn assemble(vars: &Vec<Variable>, frags: &Vec<String>, objs: &Vec<ObjectDecl>, diags: &mut Vec<Diagnostic>) -> (r: String)
    requires
        views(frags@) == pass_fragments(var_views(vars@)),
    ensures
        r@ == document(var_views(vars@), obj_views(objs@)),
        diag_views(final(diags)@) == diag_views(old(diags)@) + assembly(var_views(vars@), obj_views(objs@)).1,
{
    let ghost m = var_views(vars@);
    let ghost o = obj_views(objs@);
    let ghost d0 = diags@;
    let mut parts: Vec<String> = Vec::new();
    let mut i: usize = 0;
    assert(o.take(0) =~= Seq::<ObjModel>::empty());
    assert(diag_views(d0) + Seq::<DiagModel>::empty() =~= diag_views(d0));
    while i < objs.len()
        invariant
            i <= objs.len(),
            m == var_views(vars@),
            o == obj_views(objs@),
            views(frags@) == pass_fragments(m),
            views(parts@) == assembly(m, o.take(i as int)).0,
            diag_views(diags@) == diag_views(d0) + assembly(m, o.take(i as int)).1,
        decreases objs.len() - i,
    {
        proof {
            assert(o.take(i + 1).drop_last() =~= o.take(i as int));
            assert(o.take(i + 1).last() == o[i as int]);
        }
        let f = assemble_object(vars, frags, &objs[i], diags);
        proof {
            lemma_views_push(parts@, f);
        }
        parts.push(f);
        assert(diag_views(diags@) =~= diag_views(d0) + assembly(m, o.take(i + 1)).1);
        i = i + 1;
    }
    assert(o.take(objs.len() as int) =~= o);
    let body = join_list(&parts);
    wrap('{', &body, '}')
}


/// Whether a variable's raw text names `k` among its elements or members.
pub open spec fn refers_to(val: ValueModel, k: Seq<char>) -> bool {
    match val {
        ValueModel::Array(t) => t.contains(k),
        ValueModel::Members(t) => t.contains(k),
        ValueModel::Scalar(_) => false,
    }
}

/// `k` is consumed: named inside the array or member list of another
/// variable, or among the members of some object.
pub open spec fn is_used(vars: Seq<VarModel>, objs: Seq<ObjModel>, k: Seq<char>) -> bool {
    ||| exists|i: int| 0 <= i < vars.len() && (#[trigger] vars[i]).0 != k && refers_to(vars[i].1, k)
    ||| exists|i: int| 0 <= i < objs.len() && (#[trigger] objs[i]).1.contains(k)
}

/// One warning for each of the first `n` variables that nothing consumes,
/// in the order of the table.
pub open spec fn unused_diags(vars: Seq<VarModel>, objs: Seq<ObjModel>, n: nat) -> Seq<DiagModel>
    decreases n,
{
    if n == 0 {
        Seq::<DiagModel>::empty()
    } else {
        let p = unused_diags(vars, objs, (n - 1) as nat);
        let k = vars[n - 1].0;
        if is_used(vars, objs, k) {
            p
        } else {
            p.push((DiagnosticKind::UnusedVariable, k))
        }
    }
}

fn list_contains(list: &Vec<String>, k: &String) -> (r: bool)
    ensures
        r == views(list@).contains(k@),
{
    let ghost tv = views(list@);
    let mut i: usize = 0;
    while i < list.len()
        invariant
            i <= list.len(),
            tv == views(list@),
            forall|j: int| 0 <= j < i ==> #[trigger] tv[j] != k@,
        decreases list.len() - i,
    {
        if list[i] == *k {
            assert(tv[i as int] == k@);
            return true;
        }
        i = i + 1;
    }
    false
}

fn refers(val: &RawValue, k: &String) -> (r: bool)
    ensures
        r == refers_to(val@, k@),
{
    match val {
        RawValue::Array(t) => list_contains(t, k),
        RawValue::Members(t) => list_contains(t, k),
        RawValue::Scalar(_) => false,
    }
}

fn used(vars: &Vec<Variable>, objs: &Vec<ObjectDecl>, k: &String) -> (r: bool)
    ensures
        r == is_used(var_views(vars@), obj_views(objs@), k@),
{
    let ghost m = var_views(vars@);
    let ghost o = obj_views(objs@);
    let mut i: usize = 0;
    while i < vars.len()
        invariant
            i <= vars.len(),
            m == var_views(vars@),
            forall|j: int| 0 <= j < i ==> !((#[trigger] m[j]).0 != k@ && refers_to(m[j].1, k@)),
        decreases vars.len() - i,
    {
        if vars[i].key != *k && refers(&vars[i].value, k) {
            assert(m[i as int].0 != k@ && refers_to(m[i as int].1, k@));
            return true;
        }
        i = i + 1;
    }
    let mut i: usize = 0;
    while i < objs.len()
        invariant
            i <= objs.len(),
            m == var_views(vars@),
            o == obj_views(objs@),
            forall|j: int| 0 <= j < m.len() ==> !((#[trigger] m[j]).0 != k@ && refers_to(m[j].1, k@)),
            forall|j: int| 0 <= j < i ==> !(#[trigger] o[j]).1.contains(k@),
        decreases objs.len() - i,
    {
        if list_contains(&objs[i].members, k) {
            assert(o[i as int].1.contains(k@));
            return true;
        }
        i = i + 1;
    }
    false
}

/// Adds one `UnusedVariable` warning for each variable that nothing consumes.
pub fn report_unused(vars: &Vec<Variable>, objs: &Vec<ObjectDecl>, diags: &mut Vec<Diagnostic>)
    ensures
        diag_views(final(diags)@) == diag_views(old(diags)@) + unused_diags(
            var_views(vars@),
            obj_views(objs@),
            vars.len() as nat,
        ),
{
    let ghost m = var_views(vars@);
    let ghost o = obj_views(objs@);
    let ghost d0 = diags@;
    let mut i: usize = 0;
    assert(diag_views(d0) + Seq::<DiagModel>::empty() =~= diag_views(d0));
    while i < vars.len()
        invariant
            i <= vars.len(),
            m == var_views(vars@),
            o == obj_views(objs@),
            diag_views(diags@) == diag_views(d0) + unused_diags(m, o, i as nat),
        decreases vars.len() - i,
    {
        if !used(vars, objs, &vars[i].key) {
            let d = diagnostic(DiagnosticKind::UnusedVariable, &vars[i].key);
            proof {
                lemma_diag_views_push(diags@, d);
            }
            diags.push(d);
        }
        assert(diag_views(diags@) =~= diag_views(d0) + unused_diags(m, o, (i + 1) as nat));
        i = i + 1;
    }
}

/// The outcome of a compile: the document, the diagnostics in the order they
/// were met, and whether a line halted ingestion.
pub struct Compilation {
    pub document: String,
    pub diagnostics: Vec<Diagnostic>,
    pub halted: bool,
}

pub open spec fn halt_diags(h: Option<Seq<char>>) -> Seq<DiagModel> {
    match h {
        Some(l) => seq![(DiagnosticKind::UnclassifiableLine, l)],
        None => Seq::<DiagModel>::empty(),
    }
}

/// All diagnostics of a compile: the halting line first, then those of the
/// resolution pass, of assembly, and the unused variables.
pub open spec fn compile_diags(st: IngestModel) -> Seq<DiagModel> {
    halt_diags(st.2) + pass_diags(st.0, st.0.len()) + assembly(st.0, st.1).1 + unused_diags(st.0, st.1, st.0.len())
}

/// Compiles source text into a JSON document.
pub fn compile(text: &str) -> (r: Compilation)
    ensures
        ({
            let st = ingest(source_lines(text@));
            &&& r.document@ == document(st.0, st.1)
            &&& r.halted == st.2 is Some
            &&& diag_views(r.diagnostics@) == compile_diags(st)
        }),
{
    let (decls, halt) = declare(text);
    let mut diags: Vec<Diagnostic> = Vec::new();
    let halted = halt.is_some();
    match &halt {
        Some(line) => {
            let d = diagnostic(DiagnosticKind::UnclassifiableLine, line);
            proof {
                lemma_diag_views_push(diags@, d);
            }
            diags.push(d);
        },
        None => {},
    }
    assert(diag_views(diags@) =~= halt_diags(opt_view(halt)));
    let frags = resolve_all(&decls.variables, &mut diags);
    let document = assemble(&decls.variables, &frags, &decls.objects, &mut diags);
    report_unused(&decls.variables, &decls.objects, &mut diags);
    proof {
        let v = var_views(decls.variables@);
        assert(v.len() == decls.variables.len());
    }
    Compilation { document, diagnostics: diags, halted }
}

/// The entry that member `m` contributes where it resolves.
pub open spec fn resolved_entry(vars: Seq<VarModel>, m: Seq<char>) -> Seq<char> {
    member_entry(m, resolved(vars, m).unwrap())
}

pub open spec fn resolves_in(vars: Seq<VarModel>) -> spec_fn(Seq<char>) -> bool {
    |m: Seq<char>| resolved(vars, m) is Some
}

pub open spec fn entry_in(vars: Seq<VarModel>) -> spec_fn(Seq<char>) -> Seq<char> {
    |m: Seq<char>| resolved_entry(vars, m)
}

/// An object holds exactly the members that resolve, in the order they are
/// listed, each mapped to the fragment it resolves to.
pub proof fn lemma_object_members_exact(vars: Seq<VarModel>, members: Seq<Seq<char>>)
    ensures
        object_entries(vars, members).0 == members.filter(resolves_in(vars)).map_values(entry_in(vars)),
    decreases members.len(),
{
    reveal(Seq::filter);
    let pred = resolves_in(vars);
    let f = entry_in(vars);
    if members.len() > 0 {
        let rest = members.drop_last();
        let m = members.last();
        lemma_object_members_exact(vars, rest);
        let sub = rest.filter(pred);
        assert(members.filter(pred) == if pred(m) {
            sub.push(m)
        } else {
            sub
        });
        if pred(m) {
            assert(resolved(vars, m) is Some);
            assert(sub.push(m).map_values(f) =~= sub.map_values(f).push(f(m)));
            assert(f(m) == member_entry(m, resolved(vars, m).unwrap()));
        } else {
            assert(resolved(vars, m) is None);
        }
    } else {
        assert(members.filter(pred).map_values(f) =~= Seq::<Seq<char>>::empty());
    }
}

/// A source without objects compiles to the empty document `{}`.
pub proof fn lemma_no_objects_empty_document(vars: Seq<VarModel>)
    ensures
        document(vars, Seq::<ObjModel>::empty()) == seq!['{', '}'],
{
    assert(join(Seq::<Seq<char>>::empty(), list_sep()) == Seq::<char>::empty());
    assert(wrapped('{', Seq::<char>::empty(), '}') =~= seq!['{', '}']);
}

proof fn lemma_put_variable_unique(vars: Seq<VarModel>, key: Seq<char>, value: ValueModel)
    requires
        keys_unique(vars),
    ensures
        keys_unique(put_variable(vars, key, value)),
{
    match lookup(vars, key) {
        Some(i) => {
            assert(is_first_key(vars, key, i));
        },
        None => {
            lemma_lookup_none(vars, key);
        },
    }
}

/// Ingestion declares each variable key once.
pub proof fn lemma_ingest_keys_unique(lines: Seq<Seq<char>>)
    ensures
        keys_unique(ingest(lines).0),
    decreases lines.len(),
{
    if lines.len() > 0 {
        lemma_ingest_keys_unique(lines.drop_last());
        let st = ingest(lines.drop_last());
        if st.2 is None {
            match classify(lines.last()) {
                LineModel::Variable(k, v) => lemma_put_variable_unique(st.0, k, v),
                _ => {},
            }
        }
    }
}

pub open spec fn unused_warning_of(k: Seq<char>) -> spec_fn(DiagModel) -> bool {
    |d: DiagModel| d == (DiagnosticKind::UnusedVariable, k)
}

proof fn lemma_unused_count(vars: Seq<VarModel>, objs: Seq<ObjModel>, i: int, n: nat)
    requires
        keys_unique(vars),
        0 <= i < vars.len(),
        n <= vars.len(),
        !is_used(vars, objs, vars[i].0),
    ensures
        unused_diags(vars, objs, n).filter(unused_warning_of(vars[i].0)).len() == if i < n {
            1int
        } else {
            0int
        },
    decreases n,
{
    reveal(Seq::filter);
    let pred = unused_warning_of(vars[i].0);
    if n > 0 {
        lemma_unused_count(vars, objs, i, (n - 1) as nat);
        let p = unused_diags(vars, objs, (n - 1) as nat);
        let k = vars[n - 1].0;
        let x = (DiagnosticKind::UnusedVariable, k);
        assert(pred(x) == (k == vars[i].0));
        if n - 1 != i {
            if n - 1 < i {
                assert(vars[n - 1].0 != vars[i].0);
            } else {
                assert(vars[i].0 != vars[n - 1].0);
            }
        }
        if !is_used(vars, objs, k) {
            assert(unused_diags(vars, objs, n) == p.push(x));
            assert(p.push(x).drop_last() =~= p);
            assert(p.push(x).last() == x);
            assert(p.push(x).filter(pred) == if pred(x) {
                p.filter(pred).push(x)
            } else {
                p.filter(pred)
            });
        } else {
            assert(n - 1 != i);
            assert(unused_diags(vars, objs, n) == p);
        }
    }
}

/// A declared variable that nothing consumes gets exactly one
/// `UnusedVariable` warning.
pub proof fn lemma_unused_reported_once(vars: Seq<VarModel>, objs: Seq<ObjModel>, i: int)
    requires
        keys_unique(vars),
        0 <= i < vars.len(),
        !is_used(vars, objs, vars[i].0),
    ensures
        unused_diags(vars, objs, vars.len()).filter(unused_warning_of(vars[i].0)).len() == 1,
{
    lemma_unused_count(vars, objs, i, vars.len());
}

proof fn lemma_pass_no_unused(vars: Seq<VarModel>, n: nat)
    ensures
        no_unused_warning(pass_diags(vars, n)),
    decreases n,
{
    if n > 0 {
        lemma_pass_no_unused(vars, (n - 1) as nat);
        lemma_resolve_from_no_unused(vars, no_flags(vars.len()), n - 1, vars.len());
        lemma_no_unused_add(pass_diags(vars, (n - 1) as nat), resolve_entry(vars, n - 1).1);
    }
}

proof fn lemma_entries_no_unused(vars: Seq<VarModel>, members: Seq<Seq<char>>)
    ensures
        no_unused_warning(object_entries(vars, members).1),
    decreases members.len(),
{
    if members.len() > 0 {
        lemma_entries_no_unused(vars, members.drop_last());
        let p = object_entries(vars, members.drop_last());
        let d = object_entries(vars, members).1;
        assert forall|k: int| 0 <= k < d.len() implies (#[trigger] d[k]).0 != DiagnosticKind::UnusedVariable by {
            if k < p.1.len() {
                assert(d[k] == p.1[k]);
            }
        }
    }
}

proof fn lemma_assembly_no_unused(vars: Seq<VarModel>, objs: Seq<ObjModel>)
    ensures
        no_unused_warning(assembly(vars, objs).1),
    decreases objs.len(),
{
    if objs.len() > 0 {
        lemma_assembly_no_unused(vars, objs.drop_last());
        lemma_entries_no_unused(vars, objs.last().1);
        lemma_no_unused_add(assembly(vars, objs.drop_last()).1, object_entries(vars, objs.last().1).1);
    }
}

proof fn lemma_filter_none(d: Seq<DiagModel>, k: Seq<char>)
    requires
        no_unused_warning(d),
    ensures
        d.filter(unused_warning_of(k)).len() == 0,
    decreases d.len(),
{
    reveal(Seq::filter);
    if d.len() > 0 {
        assert(no_unused_warning(d.drop_last())) by {
            assert forall|j: int| 0 <= j < d.drop_last().len() implies (#[trigger] d.drop_last()[j]).0
                != DiagnosticKind::UnusedVariable by {
                assert(d.drop_last()[j] == d[j]);
            }
        }
        lemma_filter_none(d.drop_last(), k);
        assert(d.last() == d[d.len() - 1]);
    }
}

/// A variable that the compiled source declares and that nothing consumes
/// gets exactly one `UnusedVariable` diagnostic from the whole compile.
pub proof fn lemma_compile_reports_unused_once(text: Seq<char>, i: int)
    requires
        0 <= i < ingest(source_lines(text)).0.len(),
        !is_used(ingest(source_lines(text)).0, ingest(source_lines(text)).1, ingest(source_lines(text)).0[i].0),
    ensures
        compile_diags(ingest(source_lines(text))).filter(
            unused_warning_of(ingest(source_lines(text)).0[i].0),
        ).len() == 1,
{
    let st = ingest(source_lines(text));
    let vars = st.0;
    let objs = st.1;
    let pred = unused_warning_of(vars[i].0);
    lemma_ingest_keys_unique(source_lines(text));
    lemma_unused_reported_once(vars, objs, i);
    let h = halt_diags(st.2);
    assert(no_unused_warning(h));
    lemma_pass_no_unused(vars, vars.len());
    lemma_assembly_no_unused(vars, objs);
    let a = h + pass_diags(vars, vars.len());
    lemma_no_unused_add(h, pass_diags(vars, vars.len()));
    let b = a + assembly(vars, objs).1;
    lemma_no_unused_add(a, assembly(vars, objs).1);
    lemma_filter_none(b, vars[i].0);
    let u = unused_diags(vars, objs, vars.len());
    Seq::filter_distributes_over_add(b, u, pred);
}

/// An object `key -> { m }` whose one member is not declared gets the empty
/// body `{}` and one `UndefinedVariable` warning for `m`.
pub proof fn lemma_undeclared_member(vars: Seq<VarModel>, key: Seq<char>, m: Seq<char>)
    requires
        lookup(vars, m) is None,
    ensures
        object_fragment(vars, (key, seq![m])) == member_entry(key, seq!['{', '}']),
        object_entries(vars, seq![m]).1 == seq![(DiagnosticKind::UndefinedVariable, m)],
{
    let ms = seq![m];
    assert(ms.drop_last() =~= Seq::<Seq<char>>::empty());
    assert(ms.last() == m);
    assert(resolved(vars, m) is None);
    let prev = object_entries(vars, ms.drop_last());
    assert(prev.0 == Seq::<Seq<char>>::empty() && prev.1 == Seq::<DiagModel>::empty());
    let p = object_entries(vars, ms);
    assert(p == (prev.0, prev.1.push((DiagnosticKind::UndefinedVariable, m))));
    assert(p.0 == Seq::<Seq<char>>::empty());
    assert(p.1 =~= seq![(DiagnosticKind::UndefinedVariable, m)]);
    assert(wrapped('{', Seq::<char>::empty(), '}') =~= seq!['{', '}']);
}

pub open spec fn fragment_in(vars: Seq<VarModel>) -> spec_fn(ObjModel) -> Seq<char> {
    |o: ObjModel| object_fragment(vars, o)
}

/// Assembly gives one fragment for each declared object, in the order of
/// the table.
pub proof fn lemma_assembly_fragments(vars: Seq<VarModel>, objs: Seq<ObjModel>)
    ensures
        assembly(vars, objs).0 == objs.map_values(fragment_in(vars)),
    decreases objs.len(),
{
    if objs.len() > 0 {
        lemma_assembly_fragments(vars, objs.drop_last());
        assert(objs.map_values(fragment_in(vars)) =~= objs.drop_last().map_values(fragment_in(vars)).push(
            object_fragment(vars, objs.last()),
        ));
    } else {
        assert(objs.map_values(fragment_in(vars)) =~= Seq::<Seq<char>>::empty());
    }
}

/// The document that `compile` produces from `text`: the fragments of the
/// declared objects, in order, joined by `, ` inside one pair of braces
/// (`{}` when there is none); each fragment `"key": {...}` holds exactly the
/// members that resolve, in their listed order, each mapped to its fragment.
pub proof fn lemma_compiled_document(text: Seq<char>)
    ensures
        ({
            let st = ingest(source_lines(text));
            &&& document(st.0, st.1) == wrapped('{', join(st.1.map_values(fragment_in(st.0)), list_sep()), '}')
            &&& forall|k: int|
                0 <= k < st.1.len() ==> #[trigger] object_fragment(st.0, st.1[k]) == member_entry(
                    st.1[k].0,
                    wrapped('{', join(st.1[k].1.filter(resolves_in(st.0)).map_values(entry_in(st.0)), list_sep()), '}'),
                )
            &&& st.1.len() == 0 ==> document(st.0, st.1) == seq!['{', '}']
        }),
{
    let st = ingest(source_lines(text));
    lemma_assembly_fragments(st.0, st.1);
    assert forall|k: int|
        0 <= k < st.1.len() implies #[trigger] object_fragment(st.0, st.1[k]) == member_entry(
        st.1[k].0,
        wrapped('{', join(st.1[k].1.filter(resolves_in(st.0)).map_values(entry_in(st.0)), list_sep()), '}'),
    ) by {
        lemma_object_members_exact(st.0, st.1[k].1);
    }
    if st.1.len() == 0 {
        assert(st.1 =~= Seq::<ObjModel>::empty());
        lemma_no_objects_empty_document(st.0);
    }
}

} // verus!
