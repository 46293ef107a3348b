use vstd::prelude::*;

use crate::datatypes::Vertex;
use crate::mesh::{Mesh, index_view, mesh_len, mesh_source};

verus! {

/// `c` is white space: a character with the Unicode `White_Space` property.
pub open spec fn is_white_space(c: char) -> bool {
    ||| '\t' <= c <= '\r'
    ||| c == ' '
    ||| c == '\u{85}'
    ||| c == '\u{a0}'
    ||| c == '\u{1680}'
    ||| '\u{2000}' <= c <= '\u{200a}'
    ||| c == '\u{2028}'
    ||| c == '\u{2029}'
    ||| c == '\u{202f}'
    ||| c == '\u{205f}'
    ||| c == '\u{3000}'
}

/// The words of `s`: its maximal runs of characters that are not white space, in order.
pub open spec fn words(s: Seq<char>) -> Seq<Seq<char>>
    decreases s.len(),
{
    if s.len() == 0 {
        Seq::empty()
    } else if is_white_space(s.last()) {
        words(s.drop_last())
    } else if s.len() >= 2 && !is_white_space(s[s.len() - 2]) {
        let w = words(s.drop_last());
        w.update(w.len() - 1, w.last().push(s.last()))
    } else {
        words(s.drop_last()).push(seq![s.last()])
    }
}

/// The segments of `s` between line feeds. A final line feed is followed by an
/// empty segment; like any line without words, it adds nothing to a document.
pub open spec fn lines(s: Seq<char>) -> Seq<Seq<char>>
    decreases s.len(),
{
    if s.len() == 0 {
        seq![Seq::empty()]
    } else if s.last() == '\n' {
        lines(s.drop_last()).push(Seq::empty())
    } else {
        let l = lines(s.drop_last());
        l.update(l.len() - 1, l.last().push(s.last()))
    }
}

/// The value of a string of decimal digits.
pub open spec fn decimal_value(d: Seq<char>) -> nat
    decreases d.len(),
{
    if d.len() == 0 {
        0
    } else {
        decimal_value(d.drop_last()) * 10 + (d.last() as nat - '0' as nat) as nat
    }
}

pub open spec fn is_digit(c: char) -> bool {
    '0' <= c <= '9'
}

/// `s` read as a `u32` the way Rust's `str::parse::<u32>` reads it: an
/// optional `+`, then one or more decimal digits, of value at most `u32::MAX`.
pub open spec fn parse_u32(s: Seq<char>) -> Option<u32> {
    let d = unsigned_digits(s);
    if d.len() == 0 || !all_digits(d) {
        None
    } else if decimal_value(d) > u32::MAX {
        None
    } else {
        Some(decimal_value(d) as u32)
    }
}

/// `s` without one leading `+`.
pub open spec fn unsigned_digits(s: Seq<char>) -> Seq<char> {
    if s.len() >= 1 && s[0] == '+' {
        s.drop_first()
    } else {
        s
    }
}

/// Every character of `d` is a decimal digit.
pub open spec fn all_digits(d: Seq<char>) -> bool {
    forall|i: int| 0 <= i < d.len() ==> is_digit(#[trigger] d[i])
}

/// The part of `s` before its first `/`, and the part after it; `None`
/// without a `/`.
pub open spec fn split_slash(s: Seq<char>) -> Option<(Seq<char>, Seq<char>)> {
    match first_slash(s) {
        Some(i) => Some((s.subrange(0, i), s.subrange(i + 1, s.len() as int))),
        None => None,
    }
}

/// Index of the first `/` in `s`.
pub open spec fn first_slash(s: Seq<char>) -> Option<int>
    decreases s.len(),
{
    if s.len() == 0 {
        None
    } else {
        match first_slash(s.drop_last()) {
            Some(i) => Some(i),
            None => if s.last() == '/' {
                Some(s.len() - 1)
            } else {
                None
            },
        }
    }
}

/// The part of `s` before its first `/`, or all of it.
pub open spec fn before_slash(s: Seq<char>) -> Seq<char> {
    match split_slash(s) {
        Some((a, _)) => a,
        None => s,
    }
}

/// A face vertex `v/t` (with anything after a second `/` ignored): the
/// zero-based vertex and texture-coordinate indices. Both numbers must parse
/// and be at least 1, the first index of the format.
pub open spec fn face_ref(token: Seq<char>) -> Option<(u32, u32)> {
    match split_slash(token) {
        None => None,
        Some((first, rest)) => match (parse_u32(first), parse_u32(before_slash(rest))) {
            (Some(v), Some(t)) => if v >= 1 && t >= 1 {
                Some(((v - 1) as u32, (t - 1) as u32))
            } else {
                None
            },
            _ => None,
        },
    }
}

/// A parsed model: the number tokens of each vertex position and texture
/// coordinate, in the order of their lines, and per face corner the
/// zero-based indices of its position and texture coordinate.
pub struct ObjDocView {
    pub positions: Seq<(Seq<char>, Seq<char>, Seq<char>)>,
    pub texture_coords: Seq<(Seq<char>, Seq<char>)>,
    pub indices: Seq<u32>,
    pub texture_indices: Seq<u32>,
}

impl ObjDocView {
    pub open spec fn empty() -> ObjDocView {
        ObjDocView {
            positions: Seq::empty(),
            texture_coords: Seq::empty(),
            indices: Seq::empty(),
            texture_indices: Seq::empty(),
        }
    }
}

/// The effect of a line with words `w` on the document `d`:
/// - `v x y z` adds a position (further words ignored);
/// - `vt u v` adds a texture coordinate;
/// - `f a b c` adds a triangle, its corners taken in the order `c, b, a`;
/// - any other line, and an empty one, changes nothing.
/// A `v`, `vt` or `f` line with too few words, or a face corner that does
/// not parse, makes the document malformed (`None`).
pub open spec fn apply_line(d: ObjDocView, w: Seq<Seq<char>>) -> Option<ObjDocView> {
    if w.len() == 0 {
        Some(d)
    } else if w[0] == seq!['v'] {
        if w.len() >= 4 {
            Some(ObjDocView { positions: d.positions.push((w[1], w[2], w[3])), ..d })
        } else {
            None
        }
    } else if w[0] == seq!['v', 't'] {
        if w.len() >= 3 {
            Some(ObjDocView { texture_coords: d.texture_coords.push((w[1], w[2])), ..d })
        } else {
            None
        }
    } else if w[0] == seq!['f'] {
        if w.len() >= 4 {
            match (face_ref(w[3]), face_ref(w[2]), face_ref(w[1])) {
                (Some(c0), Some(c1), Some(c2)) => Some(
                    ObjDocView {
                        indices: d.indices.push(c0.0).push(c1.0).push(c2.0),
                        texture_indices: d.texture_indices.push(c0.1).push(c1.1).push(c2.1),
                        ..d
                    },
                ),
                _ => None,
            }
        } else {
            None
        }
    } else {
        Some(d)
    }
}

/// The document made of `ls`, line by line; `None` once a line is malformed.
pub open spec fn obj_document(ls: Seq<Seq<char>>) -> Option<ObjDocView>
    decreases ls.len(),
{
    if ls.len() == 0 {
        Some(ObjDocView::empty())
    } else {
        match obj_document(ls.drop_last()) {
            None => None,
            Some(d) => apply_line(d, words(ls.last())),
        }
    }
}

/// A final line feed changes nothing: a text parses to the same document
/// whether or not a line feed ends its last line, so that line counts either way.
pub proof fn lemma_final_line_feed(s: Seq<char>)
    ensures
        obj_document(lines(s.push('\n'))) == obj_document(lines(s)),
{
    assert(s.push('\n').drop_last() =~= s);
    assert(lines(s.push('\n')) == lines(s).push(Seq::empty()));
    assert(lines(s).push(Seq::<char>::empty()).drop_last() =~= lines(s));
    assert(words(Seq::<char>::empty()) == Seq::<Seq<char>>::empty());
}

/// A document has as many texture indices as position indices, three per face.
pub proof fn lemma_document_faces(ls: Seq<Seq<char>>)
    ensures
        obj_document(ls) matches Some(d) ==> d.indices.len() == d.texture_indices.len() && d.indices.len()
            % 3 == 0,
    decreases ls.len(),
{
    if ls.len() > 0 {
        lemma_document_faces(ls.drop_last());
    }
}

/// The parsed form of a Wavefront OBJ text.
pub struct ObjDocument {
    pub positions: Vec<(Vec<char>, Vec<char>, Vec<char>)>,
    pub texture_coords: Vec<(Vec<char>, Vec<char>)>,
    pub indices: Vec<u32>,
    pub texture_indices: Vec<u32>,
}

impl View for ObjDocument {
    type V = ObjDocView;

    open spec fn view(&self) -> ObjDocView {
        ObjDocView {
            positions: self.positions@.map_values(
                |p: (Vec<char>, Vec<char>, Vec<char>)| (p.0@, p.1@, p.2@),
            ),
            texture_coords: self.texture_coords@.map_values(|t: (Vec<char>, Vec<char>)| (t.0@, t.1@)),
            indices: self.indices@,
            texture_indices: self.texture_indices@,
        }
    }
}

fn copy_chars(v: &Vec<char>) -> (r: Vec<char>)
    ensures
        r@ == v@,
{
    let mut r: Vec<char> = Vec::with_capacity(v.len());
    let mut i: usize = 0;
    while i < v.len()
        invariant
            i <= v@.len(),
            r@ == v@.subrange(0, i as int),
        decreases v@.len() - i,
    {
        r.push(v[i]);
        i = i + 1;
        assert(r@ =~= v@.subrange(0, i as int));
    }
    assert(r@ =~= v@);
    r
}

fn char_is_white_space(c: char) -> (r: bool)
    ensures
        r == is_white_space(c),
{
    ('\t' <= c && c <= '\r') || c == ' ' || c == '\u{85}' || c == '\u{a0}' || c == '\u{1680}' || (
    '\u{2000}' <= c && c <= '\u{200a}') || c == '\u{2028}' || c == '\u{2029}' || c == '\u{202f}'
        || c == '\u{205f}' || c == '\u{3000}'
}

/// The words of a line.
pub fn split_words(line: &Vec<char>) -> (r: Vec<Vec<char>>)
    ensures
        r@.map_values(|w: Vec<char>| w@) == words(line@),
{
    let mut out: Vec<Vec<char>> = Vec::new();
    let mut cur: Vec<char> = Vec::new();
    let mut i: usize = 0;
    while i < line.len()
        invariant
            i <= line@.len(),
            ({
                let ws = words(line@.subrange(0, i as int));
                if cur@.len() == 0 {
                    out@.map_values(|w: Vec<char>| w@) == ws
                } else {
                    out@.map_values(|w: Vec<char>| w@).push(cur@) == ws
                }
            }),
            cur@.len() > 0 ==> i > 0 && !is_white_space(line@[i - 1]),
            cur@.len() == 0 ==> i == 0 || is_white_space(line@[i - 1]),
        decreases line@.len() - i,
    {
        let c = line[i];
        let ghost pre = line@.subrange(0, i as int);
        let ghost post = line@.subrange(0, i + 1);
        assert(post.drop_last() =~= pre);
        if char_is_white_space(c) {
            if cur.len() > 0 {
                let mut done: Vec<char> = Vec::new();
                std::mem::swap(&mut done, &mut cur);
                out.push(done);
                assert(out@.map_values(|w: Vec<char>| w@) =~= words(pre));
            }
        } else {
            let ghost before_out = out@.map_values(|w: Vec<char>| w@);
            let was_open = cur.len() > 0;
            cur.push(c);
            if was_open {
                assert(pre.len() >= 1 && post[post.len() - 2] == line@[i - 1]);
                assert(before_out.push(cur@) =~= words(post));
            } else {
                assert(cur@ =~= seq![c]);
                assert(post.last() == c);
                if i > 0 {
                    assert(post[post.len() - 2] == line@[i - 1]);
                }
                assert(before_out == words(pre));
                assert(before_out.push(cur@) =~= words(post));
            }
        }
        i = i + 1;
    }
    assert(line@.subrange(0, line@.len() as int) =~= line@);
    if cur.len() > 0 {
        out.push(cur);
    }
    assert(out@.map_values(|w: Vec<char>| w@) =~= words(line@));
    out
}

proof fn lemma_decimal_push(d: Seq<char>, c: char)
    ensures
        decimal_value(d.push(c)) == decimal_value(d) * 10 + (c as nat - '0' as nat) as nat,
{
    assert(d.push(c).drop_last() =~= d);
}

/// `s[lo..hi]` read as a `u32` the way `str::parse::<u32>` reads it.
fn parse_u32_range(s: &[char], lo: usize, hi: usize) -> (r: Option<u32>)
    requires
        lo <= hi <= s@.len(),
    ensures
        r == parse_u32(s@.subrange(lo as int, hi as int)),
{
    let ghost t = s@.subrange(lo as int, hi as int);
    let start = if hi - lo >= 1 && s[lo] == '+' {
        lo + 1
    } else {
        lo
    };
    let ghost d = unsigned_digits(t);
    assert(d =~= s@.subrange(start as int, hi as int));
    if start == hi {
        return None;
    }
    let mut acc: u64 = 0;
    let mut i: usize = start;
    while i < hi
        invariant
            start <= i <= hi <= s@.len(),
            d == s@.subrange(start as int, hi as int),
            t == s@.subrange(lo as int, hi as int),
            d == unsigned_digits(t),
            forall|j: int| start <= j < i ==> is_digit(s@[j]),
            acc as int == if decimal_value(s@.subrange(start as int, i as int)) >= 0x1_0000_0000 {
                0x1_0000_0000
            } else {
                decimal_value(s@.subrange(start as int, i as int)) as int
            },
        decreases hi - i,
    {
        let c = s[i];
        if !('0' <= c && c <= '9') {
            assert(d[i - start] == c);
            assert(!is_digit(d[i - start]));
            return None;
        }
        proof {
            lemma_decimal_push(s@.subrange(start as int, i as int), c);
            assert(s@.subrange(start as int, i as int).push(c) =~= s@.subrange(start as int, i + 1));
        }
        let digit: u64 = (c as u32 - '0' as u32) as u64;
        let next = acc * 10 + digit;
        acc = if next >= 0x1_0000_0000 {
            0x1_0000_0000
        } else {
            next
        };
        i = i + 1;
    }
    assert forall|j: int| 0 <= j < d.len() implies is_digit(#[trigger] d[j]) by {
        assert(d[j] == s@[start + j]);
    }
    assert(s@.subrange(start as int, hi as int) =~= d);
    if acc > 0xffff_ffff {
        None
    } else {
        Some(acc as u32)
    }
}

/// Index of the first `/` in `s[lo..]`, or `s.len()` without one.
fn find_slash(s: &[char], lo: usize) -> (r: usize)
    requires
        lo <= s@.len(),
    ensures
        lo <= r <= s@.len(),
        r < s@.len() ==> s@[r as int] == '/',
        forall|j: int| lo <= j < r ==> s@[j] != '/',
{
    let mut i = lo;
    while i < s.len()
        invariant
            lo <= i <= s@.len(),
            forall|j: int| lo <= j < i ==> s@[j] != '/',
        decreases s@.len() - i,
    {
        if s[i] == '/' {
            return i;
        }
        i = i + 1;
    }
    i
}

proof fn lemma_first_slash(t: Seq<char>, i: int)
    requires
        0 <= i < t.len(),
        t[i] == '/',
        forall|j: int| 0 <= j < i ==> t[j] != '/',
    ensures
        first_slash(t) == Some(i),
    decreases t.len(),
{
    if t.len() > i + 1 {
        lemma_first_slash(t.drop_last(), i);
    } else {
        lemma_no_slash(t.drop_last());
    }
}

proof fn lemma_no_slash(t: Seq<char>)
    requires
        forall|j: int| 0 <= j < t.len() ==> t[j] != '/',
    ensures
        first_slash(t) is None,
        split_slash(t) is None,
        before_slash(t) == t,
    decreases t.len(),
{
    if t.len() > 0 {
        lemma_no_slash(t.drop_last());
    }
}

/// The position and texture-coordinate indices of a face corner `v/t`.
fn parse_face_ref(token: &Vec<char>) -> (r: Option<(u32, u32)>)
    ensures
        r == face_ref(token@),
{
    let s = token.as_slice();
    let i = find_slash(s, 0);
    let ghost t = token@;
    if i == s.len() {
        proof {
            lemma_no_slash(t);
        }
        return None;
    }
    proof {
        lemma_first_slash(t, i as int);
    }
    let j = find_slash(s, i + 1);
    proof {
        let rest = t.subrange(i + 1, t.len() as int);
        if j < t.len() {
            lemma_first_slash(rest, j - i - 1);
            assert(rest.subrange(0, j - i - 1) =~= t.subrange(i + 1, j as int));
        } else {
            lemma_no_slash(rest);
            assert(rest =~= t.subrange(i + 1, j as int));
        }
        assert(before_slash(rest) == t.subrange(i + 1, j as int));
    }
    let v = parse_u32_range(s, 0, i);
    let tex = parse_u32_range(s, i + 1, j);
    match (v, tex) {
        (Some(v), Some(tex)) => {
            if v >= 1 && tex >= 1 {
                Some((v - 1, tex - 1))
            } else {
                None
            }
        },
        _ => None,
    }
}

/// `w` is the one-character word `c`.
fn word_is1(w: &Vec<char>, c: char) -> (r: bool)
    ensures
        r == (w@ == seq![c]),
{
    let r = w.len() == 1 && w[0] == c;
    if r {
        assert(w@ =~= seq![c]);
    }
    r
}

/// `w` is the two-character word `c0 c1`.
fn word_is2(w: &Vec<char>, c0: char, c1: char) -> (r: bool)
    ensures
        r == (w@ == seq![c0, c1]),
{
    let r = w.len() == 2 && w[0] == c0 && w[1] == c1;
    if r {
        assert(w@ =~= seq![c0, c1]);
    }
    r
}

impl ObjDocument {
    pub fn new() -> (d: ObjDocument)
        ensures
            d@ == ObjDocView::empty(),
    {
        let d = ObjDocument {
            positions: Vec::new(),
            texture_coords: Vec::new(),
            indices: Vec::new(),
            texture_indices: Vec::new(),
        };
        assert(d@.positions =~= Seq::empty());
        assert(d@.texture_coords =~= Seq::empty());
        d
    }

    /// Applies a line with words `w`; false (and the document in an
    /// unspecified state) when the line is malformed.
    fn apply(&mut self, w: &Vec<Vec<char>>) -> (ok: bool)
        ensures
            ok == (apply_line(old(self)@, w@.map_values(|x: Vec<char>| x@)) is Some),
            ok ==> final(self)@ == apply_line(old(self)@, w@.map_values(|x: Vec<char>| x@))->0,
    {
        let ghost ws = w@.map_values(|x: Vec<char>| x@);
        if w.len() == 0 {
            return true;
        }
        assert(ws[0] == w@[0]@);
        if word_is1(&w[0], 'v') {
            if w.len() >= 4 {
                let x = copy_chars(&w[1]);
                let y = copy_chars(&w[2]);
                let z = copy_chars(&w[3]);
                self.positions.push((x, y, z));
                assert(self@.positions =~= old(self)@.positions.push((ws[1], ws[2], ws[3])));
                return true;
            } else {
                return false;
            }
        }
        if word_is2(&w[0], 'v', 't') {
            assert(ws[0] != seq!['v']) by {
                assert(seq!['v', 't'].len() != seq!['v'].len());
            }
            if w.len() >= 3 {
                let u = copy_chars(&w[1]);
                let v = copy_chars(&w[2]);
                self.texture_coords.push((u, v));
                assert(self@.texture_coords =~= old(self)@.texture_coords.push((ws[1], ws[2])));
                return true;
            } else {
                return false;
            }
        }
        if word_is1(&w[0], 'f') {
            assert(ws[0] != seq!['v']) by {
                assert(seq!['f'][0] != seq!['v'][0]);
            }
            assert(ws[0] != seq!['v', 't']) by {
                assert(seq!['f'].len() != seq!['v', 't'].len());
            }
            if w.len() >= 4 {
                let c0 = parse_face_ref(&w[3]);
                let c1 = parse_face_ref(&w[2]);
                let c2 = parse_face_ref(&w[1]);
                match (c0, c1, c2) {
                    (Some(c0), Some(c1), Some(c2)) => {
                        self.indices.push(c0.0);
                        self.indices.push(c1.0);
                        self.indices.push(c2.0);
                        self.texture_indices.push(c0.1);
                        self.texture_indices.push(c1.1);
                        self.texture_indices.push(c2.1);
                        return true;
                    },
                    _ => {
                        return false;
                    },
                }
            } else {
                return false;
            }
        }
        true
    }
}

/// Parses a Wavefront OBJ text: `None` exactly when some `v`, `vt` or `f` line
/// is malformed (see `apply_line`); otherwise the document of its lines.
pub fn parse_obj(input: &[char]) -> (r: Option<ObjDocument>)
    ensures
        r is Some <==> obj_document(lines(input@)) is Some,
        r matches Some(d) ==> d@ == obj_document(lines(input@))->0,
        r matches Some(d) ==> d@.indices.len() == d@.texture_indices.len() && d@.indices.len() % 3 == 0,
{
    proof {
        lemma_document_faces(lines(input@));
    }
    let mut doc = ObjDocument::new();
    let mut failed = false;
    let mut line: Vec<char> = Vec::new();
    let mut i: usize = 0;
    assert(input@.subrange(0, 0) =~= Seq::<char>::empty());
    while i < input.len()
        invariant
            i <= input@.len(),
            lines(input@.subrange(0, i as int)).len() >= 1,
            line@ == lines(input@.subrange(0, i as int)).last(),
            failed ==> obj_document(lines(input@.subrange(0, i as int)).drop_last()) is None,
            !failed ==> obj_document(lines(input@.subrange(0, i as int)).drop_last()) == Some(doc@),
        decreases input@.len() - i,
    {
        let c = input[i];
        let ghost pre = input@.subrange(0, i as int);
        let ghost post = input@.subrange(0, i + 1);
        assert(post.drop_last() =~= pre);
        assert(post.last() == c);
        if c == '\n' {
            assert(lines(post).drop_last() =~= lines(pre));
            let ws = split_words(&line);
            if !failed {
                if !doc.apply(&ws) {
                    failed = true;
                }
            }
            line = Vec::new();
        } else {
            assert(lines(post).drop_last() =~= lines(pre).drop_last());
            line.push(c);
        }
        i = i + 1;
    }
    assert(input@.subrange(0, input@.len() as int) =~= input@);
    let ws = split_words(&line);
    if failed {
        return None;
    }
    if doc.apply(&ws) {
        Some(doc)
    } else {
        None
    }
}

/// The vertices of the faces: per corner, the position and the texture
/// coordinate its indices name. `None` when an index is out of range.
pub fn build_mesh<U: Copy>(
    positions: &[glam::Vec3],
    coords: &[U],
    indices: &[u32],
    texture_indices: &[u32],
) -> (r: Option<Mesh<U>>)
    requires
        indices@.len() == texture_indices@.len(),
    ensures
        r is Some <==> forall|k: int|
            0 <= k < indices@.len() ==> (#[trigger] indices@[k]) < positions@.len()
                && texture_indices@[k] < coords@.len(),
        r matches Some(m) ==> {
            &&& m@.positions.len() == indices@.len()
            &&& m@.data.len() == indices@.len()
            &&& forall|k: int|
                0 <= k < indices@.len() ==> #[trigger] m@.positions[k] == positions@[indices@[k] as int]
                    && m@.data[k] == coords@[texture_indices@[k] as int]
        },
{
    let mut verts: Vec<Vertex<U>> = Vec::new();
    let mut k: usize = 0;
    while k < indices.len()
        invariant
            indices@.len() == texture_indices@.len(),
            k <= indices@.len(),
            verts@.len() == k,
            forall|m: int|
                0 <= m < k ==> (#[trigger] indices@[m]) < positions@.len() && texture_indices@[m]
                    < coords@.len(),
            forall|m: int|
                0 <= m < k ==> (#[trigger] verts@[m]).position == positions@[indices@[m] as int]
                    && verts@[m].data == coords@[texture_indices@[m] as int],
        decreases indices@.len() - k,
    {
        let v = indices[k] as usize;
        let t = texture_indices[k] as usize;
        if v >= positions.len() || t >= coords.len() {
            return None;
        }
        verts.push(Vertex::new(positions[v], coords[t]));
        k = k + 1;
    }
    let ghost vs = verts@;
    let mesh = Mesh::new(verts, None);
    assert forall|m: int| 0 <= m < indices@.len() implies #[trigger] mesh@.positions[m] == positions@[indices@[m] as int]
        && mesh@.data[m] == coords@[texture_indices@[m] as int] by {
        assert(mesh_source(vs, index_view(None), m) == vs[m]);
    }
    Some(mesh)
}

} // verus!
