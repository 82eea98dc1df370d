//! Reading tile faces from the attribute values of the input library: the
//! group label that lists tile ids, the fill colour that encodes a face's
//! normal, and the path that holds its polygons.

use vstd::prelude::*;
use crate::codec::{decode, nested, parse_path};
use crate::path::{PathError, chars_of};
use crate::shapes::{Shape, ShapeComponent, ShapePrimitive, ComponentModel, copy_shape};
use crate::vector::{Vec2, Vec3};

verus! {

/// Why a face or a label was refused.
#[derive(Clone, Copy, Debug, PartialEq, Eq, Structural)]
pub enum ParseError {
    /// The path text is malformed.
    Path(PathError),
    /// The style holds no `fill:#` followed by six colour characters.
    MissingFill,
    /// A colour channel is not a pair of hexadecimal digits.
    BadColour,
    /// A label token is no binary number from 0 to 255.
    BadTileId,
    /// A polygon of the path has fewer than three vertices.
    DegeneratePolygon,
}

/// The value of a lower-case hexadecimal digit.
pub open spec fn hex_value(c: char) -> Option<int> {
    if c == 'a' {
        Some(10)
    } else if c == 'b' {
        Some(11)
    } else if c == 'c' {
        Some(12)
    } else if c == 'd' {
        Some(13)
    } else if c == 'e' {
        Some(14)
    } else if c == 'f' {
        Some(15)
    } else {
        crate::path::digit_value(c)
    }
}

/// The characters that a colour channel may be written with: hexadecimal
/// digits, and `|`, which the pattern admits but no number reads.
pub open spec fn colour_char(c: char) -> bool {
    hex_value(c) is Some || c == '|'
}

/// `fill:#` starts at `k`, followed by six colour characters.
pub open spec fn fill_at(s: Seq<char>, k: int) -> bool {
    &&& 0 <= k && k + 12 <= s.len()
    &&& s[k] == 'f' && s[k + 1] == 'i' && s[k + 2] == 'l' && s[k + 3] == 'l'
    &&& s[k + 4] == ':' && s[k + 5] == '#'
    &&& forall|i: int| 6 <= i < 12 ==> colour_char(#[trigger] s[k + i])
}

/// The first position from `k` on where a fill colour starts; `-1` if none.
pub open spec fn first_fill_from(s: Seq<char>, k: int) -> int
    decreases s.len() - k,
{
    if k < 0 || k + 12 > s.len() {
        -1
    } else if fill_at(s, k) {
        k
    } else {
        first_fill_from(s, k + 1)
    }
}

/// The value of two hexadecimal digits.
pub open spec fn channel(hi: char, lo: char) -> Option<int> {
    match (hex_value(hi), hex_value(lo)) {
        (Some(h), Some(l)) => Some(16 * h + l),
        _ => None,
    }
}

/// The red, green and blue channels of the first fill colour in a style.
pub open spec fn style_colour(s: Seq<char>) -> Result<(int, int, int), ParseError> {
    let k = first_fill_from(s, 0);
    if k < 0 {
        Err(ParseError::MissingFill)
    } else {
        match (channel(s[k + 6], s[k + 7]), channel(s[k + 8], s[k + 9]), channel(s[k + 10], s[k + 11])) {
            (Some(r), Some(g), Some(b)) => Ok((r, g, b)),
            _ => Err(ParseError::BadColour),
        }
    }
}

/// The face normal that a colour encodes: each channel less 128, with blue
/// along `x`, green along `y` and red along `z`.
pub open spec fn normal_of(rgb: (int, int, int)) -> Vec3 {
    Vec3 { x: (rgb.2 - 128) as i32, y: (rgb.1 - 128) as i32, z: (rgb.0 - 128) as i32 }
}

fn hex_of(c: char) -> (r: Option<i32>)
    ensures
        match hex_value(c) {
            Some(v) => r == Some(v as i32),
            None => r is None,
        },
{
    match c {
        'a' => Some(10),
        'b' => Some(11),
        'c' => Some(12),
        'd' => Some(13),
        'e' => Some(14),
        'f' => Some(15),
        _ => match crate::path::digit_of(c) {
            Some(d) => Some(d as i32),
            None => None,
        },
    }
}

fn channel_of(hi: char, lo: char) -> (r: Option<i32>)
    ensures
        match channel(hi, lo) {
            Some(v) => r == Some(v as i32),
            None => r is None,
        },
{
    match (hex_of(hi), hex_of(lo)) {
        (Some(h), Some(l)) => Some(16 * h + l),
        _ => None,
    }
}

fn is_fill_at(s: &Vec<char>, k: usize) -> (r: bool)
    requires
        k + 12 <= s@.len(),
    ensures
        r == fill_at(s@, k as int),
{
    let _n = s.len();
    if !(s[k] == 'f' && s[k + 1] == 'i' && s[k + 2] == 'l' && s[k + 3] == 'l' && s[k + 4] == ':'
        && s[k + 5] == '#') {
        return false;
    }
    let mut i: usize = 6;
    while i < 12
        invariant
            6 <= i <= 12,
            k + 12 <= s@.len(),
            forall|q: int| 6 <= q < i ==> colour_char(#[trigger] s@[k + q]),
            _n == s@.len(),
        decreases 12 - i,
    {
        let c = s[k + i];
        if !(hex_of(c).is_some() || c == '|') {
            assert(!colour_char(s@[k + i]));
            return false;
        }
        i = i + 1;
    }
    true
}

/// The face normal that a style's fill colour encodes.
pub fn parse_style(style: &str) -> (r: Result<Vec3, ParseError>)
    ensures
        match style_colour(style@) {
            Ok(rgb) => r == Ok::<Vec3, ParseError>(normal_of(rgb)),
            Err(e) => r == Err::<Vec3, ParseError>(e),
        },
{
    let s = chars_of(style);
    let n = s.len();
    let mut k: usize = 0;
    while n >= 12 && k <= n - 12 && !is_fill_at(&s, k)
        invariant
            n == s@.len(),
            s@ == style@,
            first_fill_from(s@, 0) == first_fill_from(s@, k as int),
        decreases n - k,
    {
        k = k + 1;
    }
    if !(n >= 12 && k <= n - 12) {
        return Err(ParseError::MissingFill);
    }
    assert(first_fill_from(s@, 0) == k);
    match (channel_of(s[k + 6], s[k + 7]), channel_of(s[k + 8], s[k + 9]), channel_of(s[k + 10], s[k + 11])) {
        (Some(r), Some(g), Some(b)) => Ok(Vec3 { x: b - 128, y: g - 128, z: r - 128 }),
        _ => Err(ParseError::BadColour),
    }
}

/// The value of a run of binary digits.
pub open spec fn bits_value(ds: Seq<char>) -> int
    decreases ds.len(),
{
    if ds.len() == 0 {
        0
    } else {
        bits_value(ds.drop_last()) * 2 + if ds.last() == '1' {
            1int
        } else {
            0int
        }
    }
}

/// A binary digit.
pub open spec fn is_bit(c: char) -> bool {
    c == '0' || c == '1'
}

/// Every character is a binary digit.
pub open spec fn all_bits(body: Seq<char>) -> bool {
    forall|i: int| 0 <= i < body.len() ==> is_bit(#[trigger] body[i])
}

/// A tile id written in base two, with an optional `+`, from 0 to 255.
pub open spec fn tile_id(tok: Seq<char>) -> Option<u8> {
    let body = if tok.len() > 0 && tok[0] == '+' {
        tok.drop_first()
    } else {
        tok
    };
    if body.len() == 0 || !all_bits(body) {
        None
    } else if bits_value(body) > 255 {
        None
    } else {
        Some(bits_value(body) as u8)
    }
}

/// The pieces of `s` between the separators `sep`.
pub open spec fn split_on(s: Seq<char>, sep: char) -> Seq<Seq<char>>
    decreases s.len(),
{
    if s.len() == 0 {
        seq![seq![]]
    } else {
        let parts = split_on(s.drop_last(), sep);
        if s.last() == sep {
            parts.push(seq![])
        } else {
            parts.update(parts.len() - 1, parts.last().push(s.last()))
        }
    }
}

proof fn lemma_split_nonempty(s: Seq<char>, sep: char)
    ensures
        split_on(s, sep).len() >= 1,
    decreases s.len(),
{
    if s.len() > 0 {
        lemma_split_nonempty(s.drop_last(), sep);
    }
}

/// The tile ids of a group label: `;`-separated binary numbers.
pub open spec fn label_ids(label: Seq<char>) -> Option<Seq<u8>> {
    let parts = split_on(label, ';');
    if forall|i: int| 0 <= i < parts.len() ==> (#[trigger] tile_id(parts[i])) is Some {
        Some(Seq::new(parts.len(), |i: int| tile_id(parts[i])->0))
    } else {
        None
    }
}

fn parse_tile_id(tok: &Vec<char>) -> (r: Option<u8>)
    ensures
        r == tile_id(tok@),
{
    let start: usize = if tok.len() > 0 && tok[0] == '+' {
        1
    } else {
        0
    };
    let ghost body = if tok@.len() > 0 && tok@[0] == '+' {
        tok@.drop_first()
    } else {
        tok@
    };
    assert(body =~= tok@.skip(start as int));
    if start == tok.len() {
        return None;
    }
    let mut v: u32 = 0;
    let mut i: usize = start;
    assert(tok@.subrange(start as int, start as int) =~= Seq::<char>::empty());
    while i < tok.len()
        invariant
            start <= i <= tok@.len(),
            body == tok@.skip(start as int),
            body == (if tok@.len() > 0 && tok@[0] == '+' {
                tok@.drop_first()
            } else {
                tok@
            }),
            forall|q: int| start <= q < i ==> is_bit(#[trigger] tok@[q]),
            bits_value(tok@.subrange(start as int, i as int)) >= 0,
            v == (if bits_value(tok@.subrange(start as int, i as int)) > 255 {
                256
            } else {
                bits_value(tok@.subrange(start as int, i as int))
            }),
        decreases tok@.len() - i,
    {
        let c = tok[i];
        if c != '0' && c != '1' {
            assert(!is_bit(body[i - start]));
            return None;
        }
        let ghost sub = tok@.subrange(start as int, i + 1);
        assert(sub.drop_last() =~= tok@.subrange(start as int, i as int));
        assert(sub.last() == c);
        if v <= 255 {
            v = v * 2 + if c == '1' {
                1
            } else {
                0
            };
            if v > 255 {
                v = 256;
            }
        }
        i = i + 1;
    }
    assert(tok@.subrange(start as int, i as int) =~= body);
    assert forall|q: int| 0 <= q < body.len() implies is_bit(#[trigger] body[q]) by {
        assert(body[q] == tok@[start + q]);
    }
    if v > 255 {
        None
    } else {
        Some(v as u8)
    }
}

/// The tile ids that a group label lists.
pub fn parse_group_label(label: &str) -> (r: Result<Vec<u8>, ParseError>)
    ensures
        match label_ids(label@) {
            Some(ids) => r is Ok && r->Ok_0@ == ids,
            None => r == Err::<Vec<u8>, ParseError>(ParseError::BadTileId),
        },
{
    let s = chars_of(label);
    let mut toks: Vec<Vec<char>> = Vec::new();
    let mut cur: Vec<char> = Vec::new();
    let mut i: usize = 0;
    assert(s@.take(0) =~= Seq::<char>::empty());
    assert(Seq::new(toks@.len(), |q: int| toks@[q]@).push(cur@) =~= seq![Seq::<char>::empty()]);
    while i < s.len()
        invariant
            i <= s@.len(),
            s@ == label@,
            split_on(s@.take(i as int), ';') == Seq::new(toks@.len(), |q: int| toks@[q]@).push(cur@),
        decreases s@.len() - i,
    {
        let c = s[i];
        let ghost pre = s@.take(i + 1);
        assert(pre.drop_last() =~= s@.take(i as int));
        assert(pre.last() == c);
        let ghost before = Seq::new(toks@.len(), |q: int| toks@[q]@);
        if c == ';' {
            let mut done: Vec<char> = Vec::new();
            std::mem::swap(&mut done, &mut cur);
            toks.push(done);
            assert(Seq::new(toks@.len(), |q: int| toks@[q]@).push(cur@) =~= before.push(
                done@,
            ).push(Seq::<char>::empty()));
        } else {
            let ghost old_cur = cur@;
            cur.push(c);
            assert(before.push(old_cur).update(before.len() as int, old_cur.push(c)) =~= before.push(
                cur@,
            ));
        }
        i = i + 1;
    }
    assert(s@.take(i as int) =~= s@);
    toks.push(cur);
    let ghost parts = split_on(label@, ';');
    assert(parts =~= Seq::new(toks@.len(), |q: int| toks@[q]@));
    let mut ids: Vec<u8> = Vec::new();
    let mut k: usize = 0;
    while k < toks.len()
        invariant
            k <= toks@.len(),
            parts == split_on(label@, ';'),
            parts == Seq::new(toks@.len(), |q: int| toks@[q]@),
            forall|q: int| 0 <= q < k ==> (#[trigger] tile_id(parts[q])) is Some,
            ids@ == Seq::new(k as nat, |q: int| tile_id(parts[q])->0),
        decreases toks@.len() - k,
    {
        assert(parts[k as int] == toks@[k as int]@);
        match parse_tile_id(&toks[k]) {
            Some(v) => {
                ids.push(v);
                k = k + 1;
                assert(ids@ =~= Seq::new(k as nat, |q: int| tile_id(parts[q])->0));
            },
            None => {
                assert(!(tile_id(parts[k as int]) is Some));
                return Err(ParseError::BadTileId);
            },
        }
    }
    Ok(ids)
}

/// The face that a path text and a style describe.
pub open spec fn component_of(d: Seq<char>, style: Seq<char>) -> Result<ComponentModel, ParseError> {
    match decode(d) {
        Err(e) => Err(ParseError::Path(e)),
        Ok(polys) => if exists|i: int| 0 <= i < polys.len() && (#[trigger] polys[i]).len() < 3 {
            Err(ParseError::DegeneratePolygon)
        } else {
            match style_colour(style) {
                Err(e) => Err(e),
                Ok(rgb) => Ok((normal_of(rgb), polys)),
            }
        },
    }
}

/// Builds a face from the `d` and `style` attribute values of a path element.
pub fn parse_component(d: &str, style: &str) -> (r: Result<ShapeComponent, ParseError>)
    ensures
        match component_of(d@, style@) {
            Ok(c) => r is Ok && r->Ok_0@ == c,
            Err(e) => r is Err && r->Err_0 == e,
        },
{
    let polys = match parse_path(d) {
        Ok(p) => p,
        Err(e) => {
            return Err(ParseError::Path(e));
        },
    };
    let mut k: usize = 0;
    while k < polys.len()
        invariant
            k <= polys@.len(),
            decode(d@) == Ok::<Seq<Seq<Vec2>>, PathError>(nested(polys@)),
            forall|q: int| 0 <= q < k ==> (#[trigger] nested(polys@)[q]).len() >= 3,
        decreases polys@.len() - k,
    {
        if polys[k].len() < 3 {
            assert(nested(polys@)[k as int].len() < 3);
            return Err(ParseError::DegeneratePolygon);
        }
        k = k + 1;
    }
    let normal = match parse_style(style) {
        Ok(n) => n,
        Err(e) => {
            return Err(e);
        },
    };
    let mut prims: Vec<ShapePrimitive> = Vec::new();
    let mut polys = polys;
    let ghost all = nested(polys@);
    let mut k: usize = 0;
    let n = polys.len();
    while k < n
        invariant
            n == polys@.len(),
            k <= n,
            all.len() == n,
            forall|q: int| k <= q < n ==> #[trigger] polys@[q]@ == all[q],
            Seq::new(prims@.len(), |q: int| prims@[q]@) == all.take(k as int),
        decreases n - k,
    {
        let mut pts: Vec<Vec2> = Vec::new();
        let ghost before = polys@;
        polys.set_and_swap(k, &mut pts);
        assert(pts@ == all[k as int]);
        let ghost pm = Seq::new(prims@.len(), |q: int| prims@[q]@);
        prims.push(ShapePrimitive { points: pts });
        assert(Seq::new(prims@.len(), |q: int| prims@[q]@) =~= pm.push(all[k as int]));
        assert(all.take(k + 1) =~= all.take(k as int).push(all[k as int]));
        assert forall|q: int| k < q < n implies #[trigger] polys@[q]@ == all[q] by {
            assert(polys@[q] == before[q]);
        }
        k = k + 1;
    }
    assert(all.take(n as int) =~= all);
    let c = ShapeComponent { normal, primitives: prims };
    assert(c@.1 =~= all);
    Ok(c)
}

/// The model of a prototype table.
pub open spec fn library_model(lib: Seq<Option<Shape>>) -> Seq<Option<Seq<ComponentModel>>> {
    Seq::new(
        lib.len(),
        |i: int|
            match lib[i] {
                Some(s) => Some(s@),
                None => None,
            },
    )
}

/// A prototype table with no tile registered: one empty slot per 8-bit id.
pub fn new_library() -> (r: Vec<Option<Shape>>)
    ensures
        r@.len() == 256,
        forall|i: int| 0 <= i < 256 ==> #[trigger] r@[i] is None,
{
    let mut r: Vec<Option<Shape>> = Vec::new();
    let mut i: usize = 0;
    while i < 256
        invariant
            i <= 256,
            r@.len() == i,
            forall|q: int| 0 <= q < i ==> #[trigger] r@[q] is None,
        decreases 256 - i,
    {
        r.push(None);
        i = i + 1;
    }
    r
}

/// Some id among the first `k` of `ids` equals `i`.
pub open spec fn lists_before(ids: Seq<u8>, k: int, i: int) -> bool {
    exists|q: int| 0 <= q < k && #[trigger] ids[q] as int == i
}

proof fn lemma_lists_step(ids: Seq<u8>, k: int, i: int)
    requires
        0 <= k < ids.len(),
    ensures
        lists_before(ids, k + 1, i) == (lists_before(ids, k, i) || ids[k] as int == i),
{
    if lists_before(ids, k + 1, i) {
        let q = choose|q: int| 0 <= q < k + 1 && #[trigger] ids[q] as int == i;
        if q < k {
            assert(lists_before(ids, k, i));
        }
    }
    if lists_before(ids, k, i) {
        let q = choose|q: int| 0 <= q < k && #[trigger] ids[q] as int == i;
        assert(lists_before(ids, k + 1, i));
    }
    if ids[k] as int == i {
        assert(lists_before(ids, k + 1, i));
    }
}

/// Registers `shape` as the prototype of every id in `ids`; ids beyond the
/// table are ignored.
pub fn register_shape(lib: &mut Vec<Option<Shape>>, ids: &Vec<u8>, shape: &Shape)
    ensures
        library_model(final(lib)@) == Seq::new(
            old(lib)@.len(),
            |i: int|
                if lists_before(ids@, ids@.len() as int, i) {
                    Some(shape@)
                } else {
                    library_model(old(lib)@)[i]
                },
        ),
{
    let ghost orig = library_model(lib@);
    let mut k: usize = 0;
    while k < ids.len()
        invariant
            k <= ids@.len(),
            lib@.len() == orig.len(),
            orig == library_model(old(lib)@),
            forall|i: int|
                0 <= i < lib@.len() ==> #[trigger] library_model(lib@)[i] == if lists_before(ids@, k as int, i) {
                    Some(shape@)
                } else {
                    orig[i]
                },
        decreases ids@.len() - k,
    {
        let id = ids[k] as usize;
        let ghost before = lib@;
        if id < lib.len() {
            let mut slot = Some(copy_shape(shape));
            lib.set_and_swap(id, &mut slot);
        }
        proof {
            assert forall|i: int| 0 <= i < lib@.len() implies #[trigger] library_model(lib@)[i] == if lists_before(ids@, k + 1, i) {
                Some(shape@)
            } else {
                orig[i]
            } by {
                lemma_lists_step(ids@, k as int, i);
                assert(library_model(before)[i] == if lists_before(ids@, k as int, i) {
                    Some(shape@)
                } else {
                    orig[i]
                });
                if i != id as int {
                    assert(lib@[i] == before[i]);
                }
            }
        }
        k = k + 1;
    }
    assert(library_model(lib@) =~= Seq::new(
        old(lib)@.len(),
        |i: int|
            if lists_before(ids@, ids@.len() as int, i) {
                Some(shape@)
            } else {
                library_model(old(lib)@)[i]
            },
    ));
}

} // verus!
