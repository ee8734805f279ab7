//! Character-level helpers: whitespace trimming, searching, splitting and
//! joining, each stated over `Seq<char>`.
use vstd::prelude::*;

verus! {

/// Unicode `White_Space`, the set that `char::is_whitespace` uses.
pub open spec fn is_space(c: char) -> bool {
    let x = c as u32;
    (0x9 <= x && x <= 0xd) || x == 0x20 || x == 0x85 || x == 0xa0 || x == 0x1680
        || (0x2000 <= x && x <= 0x200a) || x == 0x2028 || x == 0x2029 || x == 0x202f
        || x == 0x205f || x == 0x3000
}

pub fn space(c: char) -> (r: bool)
    ensures
        r == is_space(c),
{
    let x = c as u32;
    (0x9 <= x && x <= 0xd) || x == 0x20 || x == 0x85 || x == 0xa0 || x == 0x1680
        || (0x2000 <= x && x <= 0x200a) || x == 0x2028 || x == 0x2029 || x == 0x202f
        || x == 0x205f || x == 0x3000
}

pub open spec fn has_space(s: Seq<char>) -> bool {
    exists|i: int| 0 <= i < s.len() && is_space(#[trigger] s[i])
}

/// `s` without its leading whitespace.
pub open spec fn trim_start(s: Seq<char>) -> Seq<char>
    decreases s.len(),
{
    if s.len() > 0 && is_space(s[0]) {
        trim_start(s.drop_first())
    } else {
        s
    }
}

/// `s` without its trailing whitespace.
pub open spec fn trim_end(s: Seq<char>) -> Seq<char>
    decreases s.len(),
{
    if s.len() > 0 && is_space(s.last()) {
        trim_end(s.drop_last())
    } else {
        s
    }
}

pub open spec fn trim(s: Seq<char>) -> Seq<char> {
    trim_end(trim_start(s))
}

/// `i` is the first place in `s` where the two characters `a`, `b` stand in turn.
pub open spec fn is_first_pair(s: Seq<char>, a: char, b: char, i: int) -> bool {
    &&& 0 <= i && i + 1 < s.len()
    &&& s[i] == a && s[i + 1] == b
    &&& forall|j: int| 0 <= j < i ==> !(s[j] == a && #[trigger] s[j + 1] == b)
}

pub open spec fn first_pair(s: Seq<char>, a: char, b: char) -> Option<int> {
    if exists|i: int| is_first_pair(s, a, b, i) {
        Some(choose|i: int| is_first_pair(s, a, b, i))
    } else {
        None
    }
}

/// `i` is the first place in `s` that holds `c`.
pub open spec fn is_first_char(s: Seq<char>, c: char, i: int) -> bool {
    &&& 0 <= i < s.len()
    &&& s[i] == c
    &&& forall|j: int| 0 <= j < i ==> #[trigger] s[j] != c
}

pub open spec fn first_char(s: Seq<char>, c: char) -> Option<int> {
    if exists|i: int| is_first_char(s, c, i) {
        Some(choose|i: int| is_first_char(s, c, i))
    } else {
        None
    }
}

/// The pieces of `s` between the separators `sep`, in order; there is always
/// one more piece than there are separators.
pub open spec fn fields(s: Seq<char>, sep: char) -> Seq<Seq<char>>
    decreases s.len(),
{
    if s.len() == 0 {
        seq![Seq::<char>::empty()]
    } else {
        let f = fields(s.drop_last(), sep);
        if s.last() == sep {
            f.push(Seq::<char>::empty())
        } else {
            f.update(f.len() - 1, f.last().push(s.last()))
        }
    }
}

/// Each piece trimmed, the blank ones left out.
pub open spec fn nonblank(fs: Seq<Seq<char>>) -> Seq<Seq<char>>
    decreases fs.len(),
{
    if fs.len() == 0 {
        Seq::<Seq<char>>::empty()
    } else {
        let rest = nonblank(fs.drop_last());
        if trim(fs.last()).len() > 0 {
            rest.push(trim(fs.last()))
        } else {
            rest
        }
    }
}

/// The comma-separated items of a list body, trimmed, blank ones left out.
pub open spec fn list_items(s: Seq<char>) -> Seq<Seq<char>> {
    nonblank(fields(s, ','))
}

/// The pieces joined, with `sep` between each two.
pub open spec fn join(parts: Seq<Seq<char>>, sep: Seq<char>) -> Seq<char>
    decreases parts.len(),
{
    if parts.len() == 0 {
        Seq::<char>::empty()
    } else if parts.len() == 1 {
        parts[0]
    } else {
        join(parts.drop_last(), sep) + sep + parts.last()
    }
}

pub open spec fn views(v: Seq<String>) -> Seq<Seq<char>> {
    v.map_values(|s: String| s@)
}

pub proof fn lemma_views_push(v: Seq<String>, s: String)
    ensures
        views(v.push(s)) == views(v).push(s@),
{
    assert(views(v.push(s)) =~= views(v).push(s@));
}

/// Relies on `String::push`: the character is added at the end.
#[verifier::external_body]
pub(crate) fn push_char(s: &mut String, c: char)
    ensures
        final(s)@ == old(s)@.push(c),
{
    s.push(c);
}

pub fn to_chars(s: &str) -> (r: Vec<char>)
    ensures
        r@ == s@,
{
    proof {
        broadcast use vstd::string::axiom_spec_iter;
    }
    let mut v: Vec<char> = Vec::new();
    for c in it: s.chars()
        invariant
            v@ == it.history(),
            it.seq() == s@,
    {
        v.push(c);
    }
    v
}

/// The characters `v[lo..hi]` as a `String`.
pub fn string_of(v: &Vec<char>, lo: usize, hi: usize) -> (r: String)
    requires
        lo <= hi <= v.len(),
    ensures
        r@ == v@.subrange(lo as int, hi as int),
{
    let mut r = String::new();
    let mut i: usize = lo;
    while i < hi
        invariant
            lo <= i <= hi <= v.len(),
            r@ == v@.subrange(lo as int, i as int),
        decreases hi - i,
    {
        push_char(&mut r, v[i]);
        assert(v@.subrange(lo as int, i + 1) =~= v@.subrange(lo as int, i as int).push(v@[i as int]));
        i = i + 1;
    }
    r
}

/// The bounds of `v[lo..hi]` with its surrounding whitespace taken off.
pub fn trim_bounds(v: &Vec<char>, lo: usize, hi: usize) -> (r: (usize, usize))
    requires
        lo <= hi <= v.len(),
    ensures
        lo <= r.0 <= r.1 <= hi,
        v@.subrange(r.0 as int, r.1 as int) == trim(v@.subrange(lo as int, hi as int)),
{
    let mut a: usize = lo;
    while a < hi && space(v[a])
        invariant
            lo <= a <= hi <= v.len(),
            trim_start(v@.subrange(lo as int, hi as int)) == trim_start(v@.subrange(a as int, hi as int)),
        decreases hi - a,
    {
        assert(v@.subrange(a as int, hi as int).drop_first() =~= v@.subrange(a + 1, hi as int));
        a = a + 1;
    }
    assert(trim_start(v@.subrange(a as int, hi as int)) == v@.subrange(a as int, hi as int));
    let mut b: usize = hi;
    while b > a && space(v[b - 1])
        invariant
            lo <= a <= b <= hi <= v.len(),
            trim_start(v@.subrange(lo as int, hi as int)) == v@.subrange(a as int, hi as int),
            trim_end(v@.subrange(a as int, hi as int)) == trim_end(v@.subrange(a as int, b as int)),
        decreases b - a,
    {
        assert(v@.subrange(a as int, b as int).drop_last() =~= v@.subrange(a as int, b - 1));
        b = b - 1;
    }
    assert(trim_end(v@.subrange(a as int, b as int)) == v@.subrange(a as int, b as int));
    (a, b)
}

/// The first place in `v` that holds `c`.
pub fn find_char(v: &Vec<char>, c: char) -> (r: Option<usize>)
    ensures
        match r {
            Some(i) => first_char(v@, c) == Some(i as int),
            None => first_char(v@, c) is None,
        },
{
    let mut i: usize = 0;
    while i < v.len()
        invariant
            i <= v.len(),
            forall|j: int| 0 <= j < i ==> #[trigger] v@[j] != c,
        decreases v.len() - i,
    {
        if v[i] == c {
            proof {
                assert(is_first_char(v@, c, i as int));
                let k = choose|k: int| is_first_char(v@, c, k);
                assert(k == i) by {
                    if k < i {
                        assert(v@[k] != c);
                    } else if k > i {
                        assert(v@[i as int] != c);
                    }
                }
            }
            return Some(i);
        }
        i = i + 1;
    }
    None
}

/// The first place in `v` where `a` is followed by `b`.
pub fn find_pair(v: &Vec<char>, a: char, b: char) -> (r: Option<usize>)
    ensures
        match r {
            Some(i) => first_pair(v@, a, b) == Some(i as int),
            None => first_pair(v@, a, b) is None,
        },
{
    let mut i: usize = 0;
    while v.len() > 1 && i < v.len() - 1
        invariant
            i <= v.len(),
            forall|j: int| 0 <= j < i ==> !(v@[j] == a && #[trigger] v@[j + 1] == b),
        decreases v.len() - i,
    {
        if v[i] == a && v[i + 1] == b {
            proof {
                assert(is_first_pair(v@, a, b, i as int));
                let k = choose|k: int| is_first_pair(v@, a, b, k);
                assert(k == i) by {
                    if k < i {
                        assert(!(v@[k] == a && v@[k + 1] == b));
                    } else if k > i {
                        assert(!(v@[i as int] == a && v@[i + 1] == b));
                    }
                }
            }
            return Some(i);
        }
        i = i + 1;
    }
    assert(!exists|k: int| is_first_pair(v@, a, b, k)) by {
        if exists|k: int| is_first_pair(v@, a, b, k) {
            let k = choose|k: int| is_first_pair(v@, a, b, k);
            assert(!(v@[k] == a && v@[k + 1] == b));
        }
    }
    None
}

pub fn has_space_in(v: &Vec<char>, lo: usize, hi: usize) -> (r: bool)
    requires
        lo <= hi <= v.len(),
    ensures
        r == has_space(v@.subrange(lo as int, hi as int)),
{
    let ghost s = v@.subrange(lo as int, hi as int);
    let mut i: usize = lo;
    while i < hi
        invariant
            lo <= i <= hi <= v.len(),
            s == v@.subrange(lo as int, hi as int),
            forall|j: int| 0 <= j < i - lo ==> !is_space(#[trigger] s[j]),
        decreases hi - i,
    {
        if space(v[i]) {
            assert(is_space(s[i - lo]));
            return true;
        }
        i = i + 1;
    }
    false
}

/// The trimmed, non-blank comma-separated items of `v[lo..hi]`.
pub fn split_list(v: &Vec<char>, lo: usize, hi: usize) -> (r: Vec<String>)
    requires
        lo <= hi <= v.len(),
    ensures
        views(r@) == list_items(v@.subrange(lo as int, hi as int)),
{
    let mut out: Vec<String> = Vec::new();
    let ghost mut done: Seq<Seq<char>> = Seq::empty();
    let mut start: usize = lo;
    let mut j: usize = lo;
    assert(v@.subrange(lo as int, lo as int) =~= Seq::<char>::empty());
    assert(fields(Seq::<char>::empty(), ',') == seq![Seq::<char>::empty()]);
    while j < hi
        invariant
            lo <= start <= j <= hi <= v.len(),
            fields(v@.subrange(lo as int, j as int), ',') == done.push(v@.subrange(start as int, j as int)),
            views(out@) == nonblank(done),
        decreases hi - j,
    {
        let ghost s1 = v@.subrange(lo as int, j + 1);
        assert(s1.drop_last() =~= v@.subrange(lo as int, j as int));
        if v[j] == ',' {
            let (a, b) = trim_bounds(v, start, j);
            proof {
                assert(done.push(v@.subrange(start as int, j as int)).drop_last() =~= done);
            }
            if a < b {
                let t = string_of(v, a, b);
                proof {
                    lemma_views_push(out@, t);
                }
                out.push(t);
            }
            proof {
                done = done.push(v@.subrange(start as int, j as int));
                assert(v@.subrange(j + 1, j + 1) =~= Seq::<char>::empty());
            }
            start = j + 1;
        } else {
            proof {
                assert(v@.subrange(start as int, j + 1) =~= v@.subrange(start as int, j as int).push(v@[j as int]));
                assert(done.push(v@.subrange(start as int, j + 1)) =~= done.push(v@.subrange(start as int, j as int)).update(
                    done.len() as int, v@.subrange(start as int, j as int).push(v@[j as int])));
            }
        }
        j = j + 1;
    }
    let (a, b) = trim_bounds(v, start, hi);
    proof {
        assert(done.push(v@.subrange(start as int, hi as int)).drop_last() =~= done);
    }
    if a < b {
        let t = string_of(v, a, b);
        proof {
            lemma_views_push(out@, t);
        }
        out.push(t);
    }
    out
}

/// The pieces joined, with `sep` between each two.
pub fn join_with(parts: &Vec<String>, sep: &str) -> (r: String)
    ensures
        r@ == join(views(parts@), sep@),
{
    let mut r = String::new();
    let mut i: usize = 0;
    while i < parts.len()
        invariant
            i <= parts.len(),
            r@ == join(views(parts@.take(i as int)), sep@),
        decreases parts.len() - i,
    {
        let ghost before = views(parts@.take(i as int));
        proof {
            assert(views(parts@.take(i + 1)).drop_last() =~= before);
            assert(views(parts@.take(i + 1)).last() == parts@[i as int]@);
            assert(i == 0 ==> views(parts@.take(i + 1)) =~= seq![parts@[i as int]@]);
        }
        if i > 0 {
            r.append(sep);
        }
        r.append(parts[i].as_str());
        i = i + 1;
    }
    assert(parts@.take(parts.len() as int) =~= parts@);
    r
}

} // verus!
