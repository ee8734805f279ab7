//! The line classifier: comment stripping, and the decision whether a line
//! declares a variable or an object.
use vstd::prelude::*;
use crate::text::{
    find_char, find_pair, first_char, first_pair, has_space, has_space_in, list_items, split_list,
    string_of, to_chars, trim, trim_bounds, views,
};

verus! {

/// A variable's raw text, parsed once by its first and last characters.
pub enum RawValue {
    Scalar(String),
    Array(Vec<String>),
    Members(Vec<String>),
}

pub enum ValueModel {
    Scalar(Seq<char>),
    Array(Seq<Seq<char>>),
    Members(Seq<Seq<char>>),
}

impl View for RawValue {
    type V = ValueModel;

    open spec fn view(&self) -> ValueModel {
        match self {
            RawValue::Scalar(s) => ValueModel::Scalar(s@),
            RawValue::Array(t) => ValueModel::Array(views(t@)),
            RawValue::Members(m) => ValueModel::Members(views(m@)),
        }
    }
}

/// One classified line.
pub enum Line {
    Variable { key: String, value: RawValue },
    Object { key: String, members: Vec<String> },
    Unclassifiable,
}

pub enum LineModel {
    Variable(Seq<char>, ValueModel),
    Object(Seq<char>, Seq<Seq<char>>),
    Unclassifiable,
}

impl View for Line {
    type V = LineModel;

    open spec fn view(&self) -> LineModel {
        match self {
            Line::Variable { key, value } => LineModel::Variable(key@, value@),
            Line::Object { key, members } => LineModel::Object(key@, views(members@)),
            Line::Unclassifiable => LineModel::Unclassifiable,
        }
    }
}

/// `s` is enclosed by `open` and `close`.
pub open spec fn enclosed(s: Seq<char>, open: char, close: char) -> bool {
    s.len() >= 2 && s[0] == open && s.last() == close
}

pub open spec fn interior(s: Seq<char>) -> Seq<char> {
    s.subrange(1, s.len() - 1)
}

/// What the raw text of a variable holds: an array literal `[...]`, a member
/// list `{...}`, or anything else, taken as it stands.
pub open spec fn parse_value(v: Seq<char>) -> ValueModel {
    if enclosed(v, '[', ']') {
        ValueModel::Array(list_items(interior(v)))
    } else if enclosed(v, '{', '}') {
        ValueModel::Members(list_items(interior(v)))
    } else {
        ValueModel::Scalar(v)
    }
}

pub open spec fn variable_key_ok(k: Seq<char>) -> bool {
    k.len() > 0 && !has_space(k) && first_pair(k, '-', '>') is None
}

/// The key and raw value of `key = value`: split at the first `=`, both sides
/// trimmed; the key non-empty, without whitespace and without `->`; the value
/// non-empty.
pub open spec fn variable_parts(s: Seq<char>) -> Option<(Seq<char>, Seq<char>)> {
    match first_char(s, '=') {
        Some(i) => {
            let k = trim(s.subrange(0, i));
            let v = trim(s.subrange(i + 1, s.len() as int));
            if variable_key_ok(k) && v.len() > 0 {
                Some((k, v))
            } else {
                None
            }
        },
        None => None,
    }
}

/// The key and the member-list body of `key -> { ... }`: split at the first
/// `->`, both sides trimmed; the key non-empty; the right side enclosed in braces.
pub open spec fn object_parts(s: Seq<char>) -> Option<(Seq<char>, Seq<char>)> {
    match first_pair(s, '-', '>') {
        Some(i) => {
            let k = trim(s.subrange(0, i));
            let r = trim(s.subrange(i + 2, s.len() as int));
            if k.len() > 0 && enclosed(r, '{', '}') {
                Some((k, interior(r)))
            } else {
                None
            }
        },
        None => None,
    }
}

/// A variable declaration if the line is one, else an object declaration if
/// it is one, else neither.
pub open spec fn classify(s: Seq<char>) -> LineModel {
    match variable_parts(s) {
        Some(p) => LineModel::Variable(p.0, parse_value(p.1)),
        None => match object_parts(s) {
            Some(p) => LineModel::Object(p.0, list_items(p.1)),
            None => LineModel::Unclassifiable,
        },
    }
}

/// A line with its comment taken off and trimmed: a line that starts with `#`
/// is all comment, and `//` starts a comment that runs to the end.
pub open spec fn clean_line(s: Seq<char>) -> Seq<char> {
    let t = trim(s);
    if t.len() > 0 && t[0] == '#' {
        Seq::<char>::empty()
    } else {
        match first_pair(t, '/', '/') {
            Some(i) => trim(t.subrange(0, i)),
            None => t,
        }
    }
}

pub fn sub_vec(v: &Vec<char>, lo: usize, hi: usize) -> (r: Vec<char>)
    requires
        lo <= hi <= v.len(),
    ensures
        r@ == v@.subrange(lo as int, hi as int),
{
    let mut r: Vec<char> = Vec::new();
    let mut i: usize = lo;
    while i < hi
        invariant
            lo <= i <= hi <= v.len(),
            r@ == v@.subrange(lo as int, i as int),
        decreases hi - i,
    {
        r.push(v[i]);
        assert(r@ =~= v@.subrange(lo as int, i + 1));
        i = i + 1;
    }
    r
}

fn variable_bounds(v: &Vec<char>) -> (r: Option<(usize, usize, usize, usize)>)
    ensures
        match r {
            Some((a, b, c, d)) => a <= b <= v.len() && c <= d <= v.len() && variable_parts(v@) == Some(
                (v@.subrange(a as int, b as int), v@.subrange(c as int, d as int)),
            ),
            None => variable_parts(v@) is None,
        },
{
    match find_char(v, '=') {
        None => None,
        Some(i) => {
            let (a, b) = trim_bounds(v, 0, i);
            let (c, d) = trim_bounds(v, i + 1, v.len());
            if a == b || c == d || has_space_in(v, a, b) {
                return None;
            }
            let key = sub_vec(v, a, b);
            if find_pair(&key, '-', '>').is_some() {
                return None;
            }
            Some((a, b, c, d))
        },
    }
}

fn object_bounds(v: &Vec<char>) -> (r: Option<(usize, usize, usize, usize)>)
    ensures
        match r {
            Some((a, b, c, d)) => a <= b <= v.len() && c <= d <= v.len() && object_parts(v@) == Some(
                (v@.subrange(a as int, b as int), v@.subrange(c as int, d as int)),
            ),
            None => object_parts(v@) is None,
        },
{
    match find_pair(v, '-', '>') {
        None => None,
        Some(i) => {
            let (a, b) = trim_bounds(v, 0, i);
            let (c, d) = trim_bounds(v, i + 2, v.len());
            if a == b || d - c < 2 || v[c] != '{' || v[d - 1] != '}' {
                return None;
            }
            let ghost r = v@.subrange(c as int, d as int);
            assert(interior(r) =~= v@.subrange(c + 1, d - 1));
            Some((a, b, c + 1, d - 1))
        },
    }
}

/// Whether `s` is a variable declaration `key = value`.
pub fn is_variable(s: &str) -> (r: bool)
    ensures
        r == variable_parts(s@) is Some,
{
    let v = to_chars(s);
    variable_bounds(&v).is_some()
}

/// Whether `s` is an object declaration `key -> { ... }`.
pub fn is_object(s: &str) -> (r: bool)
    ensures
        r == object_parts(s@) is Some,
{
    let v = to_chars(s);
    object_bounds(&v).is_some()
}

/// Parses a variable's raw text `v[lo..hi]`.
pub fn parse_raw_value(v: &Vec<char>, lo: usize, hi: usize) -> (r: RawValue)
    requires
        lo <= hi <= v.len(),
    ensures
        r@ == parse_value(v@.subrange(lo as int, hi as int)),
{
    let ghost s = v@.subrange(lo as int, hi as int);
    if hi - lo >= 2 && v[lo] == '[' && v[hi - 1] == ']' {
        assert(interior(s) =~= v@.subrange(lo + 1, hi - 1));
        RawValue::Array(split_list(v, lo + 1, hi - 1))
    } else if hi - lo >= 2 && v[lo] == '{' && v[hi - 1] == '}' {
        assert(interior(s) =~= v@.subrange(lo + 1, hi - 1));
        RawValue::Members(split_list(v, lo + 1, hi - 1))
    } else {
        RawValue::Scalar(string_of(v, lo, hi))
    }
}

/// Classifies one comment-free, trimmed line given by its characters.
pub fn classify_chars(v: &Vec<char>) -> (r: Line)
    ensures
        r@ == classify(v@),
{
    match variable_bounds(v) {
        Some((a, b, c, d)) => Line::Variable { key: string_of(v, a, b), value: parse_raw_value(v, c, d) },
        None => match object_bounds(v) {
            Some((a, b, c, d)) => Line::Object { key: string_of(v, a, b), members: split_list(v, c, d) },
            None => Line::Unclassifiable,
        },
    }
}

/// Classifies one comment-free, trimmed line.
pub fn classify_line(s: &str) -> (r: Line)
    ensures
        r@ == classify(s@),
{
    let v = to_chars(s);
    classify_chars(&v)
}

/// The characters of `v[lo..hi]` with the comment taken off, trimmed.
pub fn strip_comment(v: &Vec<char>, lo: usize, hi: usize) -> (r: Vec<char>)
    requires
        lo <= hi <= v.len(),
    ensures
        r@ == clean_line(v@.subrange(lo as int, hi as int)),
{
    let (a, b) = trim_bounds(v, lo, hi);
    if a < b && v[a] == '#' {
        return Vec::new();
    }
    let t = sub_vec(v, a, b);
    match find_pair(&t, '/', '/') {
        Some(i) => {
            let (c, d) = trim_bounds(&t, 0, i);
            sub_vec(&t, c, d)
        },
        None => t,
    }
}

} // verus!
