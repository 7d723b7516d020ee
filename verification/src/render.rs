//! The windowed renderer: materialize only what a viewport can see.
//!
//! Given the client's fragment map and its current snapshot, rendering walks
//! the pages whose placement intersects the requested window and, within
//! them, only the fragments whose translated bounding box intersects it.
//! Fonts and styles are referenced by content identity in the output rather
//! than inlined, so the markup of a leaf depends on its content alone and can
//! be cached by identity for the whole session.  An unresolved child renders
//! as a placeholder for that region only; nesting beyond the depth limit is
//! pruned the same way.

use crate::client::{ClientEntry, ClientEntryV, ClientStore};
use crate::geom::{Point, Rect, COORD_LIMIT, MAX_RENDER_DEPTH};
use crate::ir::{ChildRef, ContentId, DocumentSnapshotV, FragmentV, PageEntry};
use std::collections::HashMap;
use vstd::prelude::*;

verus! {

broadcast use vstd::std_specs::hash::group_hash_axioms, vstd::std_specs::vec::group_vec_axioms;

// ---------------------------------------------------------------------------
// Decimal text.
// ---------------------------------------------------------------------------

/// The decimal digit character of a value below ten.
pub open spec fn digit_char(d: nat) -> char {
    if d == 0 {
        '0'
    } else if d == 1 {
        '1'
    } else if d == 2 {
        '2'
    } else if d == 3 {
        '3'
    } else if d == 4 {
        '4'
    } else if d == 5 {
        '5'
    } else if d == 6 {
        '6'
    } else if d == 7 {
        '7'
    } else if d == 8 {
        '8'
    } else {
        '9'
    }
}

/// The decimal text of a natural number.
pub open spec fn dec_chars(n: nat) -> Seq<char>
    decreases n,
{
    if n < 10 {
        seq![digit_char(n)]
    } else {
        dec_chars(n / 10).push(digit_char(n % 10))
    }
}

/// The decimal text of a signed value.
pub open spec fn int_chars(x: int) -> Seq<char> {
    if x < 0 {
        seq!['-'] + dec_chars((-x) as nat)
    } else {
        dec_chars(x as nat)
    }
}

/// One digit as a string slice.
fn digit_str(d: u64) -> (r: &'static str)
    requires
        d < 10,
    ensures
        r@ == seq![digit_char(d as nat)],
{
    proof {
        reveal_strlit("0");
        reveal_strlit("1");
        reveal_strlit("2");
        reveal_strlit("3");
        reveal_strlit("4");
        reveal_strlit("5");
        reveal_strlit("6");
        reveal_strlit("7");
        reveal_strlit("8");
        reveal_strlit("9");
    }
    if d == 0 {
        "0"
    } else if d == 1 {
        "1"
    } else if d == 2 {
        "2"
    } else if d == 3 {
        "3"
    } else if d == 4 {
        "4"
    } else if d == 5 {
        "5"
    } else if d == 6 {
        "6"
    } else if d == 7 {
        "7"
    } else if d == 8 {
        "8"
    } else {
        "9"
    }
}

/// The decimal text of a word.
pub fn dec_string(n: u64) -> (r: String)
    ensures
        r@ == dec_chars(n as nat),
    decreases n,
{
    if n < 10 {
        let r = digit_str(n).to_owned();
        r
    } else {
        let mut r = dec_string(n / 10);
        r.append(digit_str(n % 10));
        proof {
            assert(dec_chars((n / 10) as nat).push(digit_char((n % 10) as nat)) =~= dec_chars(
                (n / 10) as nat,
            ) + seq![digit_char((n % 10) as nat)]);
        }
        r
    }
}

/// The decimal text of a signed coordinate.
pub fn int_string(x: i64) -> (r: String)
    requires
        x > i64::MIN,
    ensures
        r@ == int_chars(x as int),
{
    if x < 0 {
        let mut r = "-".to_owned();
        let m = (-x) as u64;
        let d = dec_string(m);
        r.append(d.as_str());
        proof {
            reveal_strlit("-");
            assert(r@ =~= int_chars(x as int));
        }
        r
    } else {
        dec_string(x as u64)
    }
}

// ---------------------------------------------------------------------------
// Leaf bodies.
// ---------------------------------------------------------------------------

/// Space-separated decimal glyph identifiers.
pub open spec fn glyphs_chars(gs: Seq<u32>) -> Seq<char>
    decreases gs.len(),
{
    if gs.len() == 0 {
        Seq::empty()
    } else if gs.len() == 1 {
        dec_chars(gs[0] as nat)
    } else {
        glyphs_chars(gs.drop_last()) + seq![' '] + dec_chars(gs.last() as nat)
    }
}

/// Space-separated `x,y` pairs.
pub open spec fn points_chars(ps: Seq<Point>) -> Seq<char>
    decreases ps.len(),
{
    if ps.len() == 0 {
        Seq::empty()
    } else if ps.len() == 1 {
        point_chars(ps[0])
    } else {
        points_chars(ps.drop_last()) + seq![' '] + point_chars(ps.last())
    }
}

pub open spec fn point_chars(p: Point) -> Seq<char> {
    int_chars(p.x as int) + seq![','] + int_chars(p.y as int)
}

/// Space-separated decimal byte values.
pub open spec fn bytes_chars(bs: Seq<u8>) -> Seq<char>
    decreases bs.len(),
{
    if bs.len() == 0 {
        Seq::empty()
    } else if bs.len() == 1 {
        dec_chars(bs[0] as nat)
    } else {
        bytes_chars(bs.drop_last()) + seq![' '] + dec_chars(bs.last() as nat)
    }
}

/// The cacheable body of a fragment: text that depends on the fragment's
/// content alone, never on its position or on the window.
pub open spec fn leaf_markup(f: FragmentV) -> Seq<char> {
    match f {
        FragmentV::GlyphRun { glyphs, .. } => glyphs_chars(glyphs),
        FragmentV::Shape { points, .. } => points_chars(points),
        FragmentV::TextMeta { text, .. } => bytes_chars(text),
        _ => Seq::empty(),
    }
}

/// Render the glyph list of a glyph run.
fn glyphs_string(gs: &Vec<u32>) -> (r: String)
    ensures
        r@ == glyphs_chars(gs@),
{
    let mut r = String::new();
    let mut k: usize = 0;
    proof {
        assert(gs@.subrange(0, 0) =~= Seq::<u32>::empty());
    }
    while k < gs.len()
        invariant
            k <= gs@.len(),
            r@ == glyphs_chars(gs@.subrange(0, k as int)),
        decreases gs@.len() - k,
    {
        if k > 0 {
            proof {
                reveal_strlit(" ");
            }
            r.append(" ");
        }
        let d = dec_string(gs[k] as u64);
        r.append(d.as_str());
        proof {
            let now = gs@.subrange(0, k + 1);
            assert(now.drop_last() =~= gs@.subrange(0, k as int));
            assert(now.last() == gs@[k as int]);
            assert(r@ =~= glyphs_chars(now));
        }
        k = k + 1;
    }
    proof {
        assert(gs@.subrange(0, gs@.len() as int) =~= gs@);
    }
    r
}

/// Render the point list of a shape.
fn points_string(ps: &Vec<Point>) -> (r: String)
    requires
        forall|q: int| 0 <= q < ps@.len() ==> (#[trigger] ps@[q]).bounded(),
    ensures
        r@ == points_chars(ps@),
{
    let mut r = String::new();
    let mut k: usize = 0;
    proof {
        assert(ps@.subrange(0, 0) =~= Seq::<Point>::empty());
    }
    while k < ps.len()
        invariant
            k <= ps@.len(),
            forall|q: int| 0 <= q < ps@.len() ==> (#[trigger] ps@[q]).bounded(),
            r@ == points_chars(ps@.subrange(0, k as int)),
        decreases ps@.len() - k,
    {
        if k > 0 {
            proof {
                reveal_strlit(" ");
            }
            r.append(" ");
        }
        let p = ps[k];
        let xs = int_string(p.x);
        r.append(xs.as_str());
        proof {
            reveal_strlit(",");
        }
        r.append(",");
        let ys = int_string(p.y);
        r.append(ys.as_str());
        proof {
            let now = ps@.subrange(0, k + 1);
            assert(now.drop_last() =~= ps@.subrange(0, k as int));
            assert(now.last() == ps@[k as int]);
            assert(r@ =~= points_chars(now));
        }
        k = k + 1;
    }
    proof {
        assert(ps@.subrange(0, ps@.len() as int) =~= ps@);
    }
    r
}

/// Render the byte list of a text-metadata fragment.
fn bytes_string(bs: &Vec<u8>) -> (r: String)
    ensures
        r@ == bytes_chars(bs@),
{
    let mut r = String::new();
    let mut k: usize = 0;
    proof {
        assert(bs@.subrange(0, 0) =~= Seq::<u8>::empty());
    }
    while k < bs.len()
        invariant
            k <= bs@.len(),
            r@ == bytes_chars(bs@.subrange(0, k as int)),
        decreases bs@.len() - k,
    {
        if k > 0 {
            proof {
                reveal_strlit(" ");
            }
            r.append(" ");
        }
        let d = dec_string(bs[k] as u64);
        r.append(d.as_str());
        proof {
            let now = bs@.subrange(0, k + 1);
            assert(now.drop_last() =~= bs@.subrange(0, k as int));
            assert(now.last() == bs@[k as int]);
            assert(r@ =~= bytes_chars(now));
        }
        k = k + 1;
    }
    proof {
        assert(bs@.subrange(0, bs@.len() as int) =~= bs@);
    }
    r
}

/// Render the cacheable body of a fragment.
fn leaf_string(f: &crate::ir::Fragment) -> (r: String)
    requires
        f@.wf(),
    ensures
        r@ == leaf_markup(f@),
{
    match f {
        crate::ir::Fragment::GlyphRun { glyphs, .. } => glyphs_string(glyphs),
        crate::ir::Fragment::Shape { points, .. } => points_string(points),
        crate::ir::Fragment::TextMeta { text, .. } => bytes_string(text),
        _ => String::new(),
    }
}

// ---------------------------------------------------------------------------
// The rendering function, as mathematics.
// ---------------------------------------------------------------------------

/// Whether a box placed at `(tx, ty)` shares area with the window.
pub open spec fn hits(b: Rect, tx: int, ty: int, w: Rect) -> bool {
    &&& b.x_min + tx < w.x_max
    &&& w.x_min < b.x_max + tx
    &&& b.y_min + ty < w.y_max
    &&& w.y_min < b.y_max + ty
}

/// The position attributes of an emitted element.
pub open spec fn attr_xy(tx: int, ty: int) -> Seq<char> {
    " x='"@ + int_chars(tx) + "' y='"@ + int_chars(ty) + "'"@
}

/// The markup of the fragment `id` placed at `(tx, ty)`, restricted to the
/// window: nothing for a fragment whose translated box misses the window, a
/// placeholder for an unresolved identity or for nesting beyond the fuel.
pub open spec fn render_node(
    m: Map<ContentId, ClientEntryV>,
    id: ContentId,
    tx: int,
    ty: int,
    w: Rect,
    fuel: nat,
) -> Seq<char>
    decreases fuel, 0int,
{
    if fuel == 0 {
        "<pruned/>"@
    } else if !m.contains_key(id) {
        "<missing id='"@ + dec_chars(id as nat) + "'/>"@
    } else {
        let f = m[id].frag;
        match f.bbox() {
            None => Seq::empty(),
            Some(b) => if !hits(b, tx, ty, w) {
                Seq::empty()
            } else {
                match f {
                    FragmentV::Page { children, .. } => "<group"@ + attr_xy(tx, ty) + ">"@
                        + render_children(m, children, tx, ty, w, (fuel - 1) as nat) + "</group>"@,
                    FragmentV::Frame { children, .. } => "<group"@ + attr_xy(tx, ty) + ">"@
                        + render_children(m, children, tx, ty, w, (fuel - 1) as nat) + "</group>"@,
                    FragmentV::GlyphRun { font, size, .. } => "<text"@ + attr_xy(tx, ty)
                        + " font='"@ + dec_chars(font as nat) + "' size='"@ + dec_chars(
                        size as nat,
                    ) + "'>"@ + leaf_markup(f) + "</text>"@,
                    FragmentV::Shape { style, .. } => "<path"@ + attr_xy(tx, ty) + " style='"@
                        + dec_chars(style as nat) + "'>"@ + leaf_markup(f) + "</path>"@,
                    FragmentV::TextMeta { .. } => "<meta"@ + attr_xy(tx, ty) + ">"@ + leaf_markup(
                        f,
                    ) + "</meta>"@,
                    _ => Seq::empty(),
                }
            },
        }
    }
}

/// The concatenated markup of placed children.
pub open spec fn render_children(
    m: Map<ContentId, ClientEntryV>,
    cs: Seq<ChildRef>,
    tx: int,
    ty: int,
    w: Rect,
    fuel: nat,
) -> Seq<char>
    decreases fuel, cs.len(),
{
    if cs.len() == 0 {
        Seq::empty()
    } else {
        render_node(m, cs[0].id, tx + cs[0].dx, ty + cs[0].dy, w, fuel) + render_children(
            m,
            cs.drop_first(),
            tx,
            ty,
            w,
            fuel,
        )
    }
}

/// The concatenated markup of the pages whose placement intersects the
/// window; pages fully outside are skipped entirely.
pub open spec fn render_pages(
    m: Map<ContentId, ClientEntryV>,
    pages: Seq<PageEntry>,
    w: Rect,
) -> Seq<char>
    decreases pages.len(),
{
    if pages.len() == 0 {
        Seq::empty()
    } else {
        let p = pages[0];
        (if p.frame.spec_intersects(w) {
            "<page"@ + attr_xy(p.frame.x_min as int, p.frame.y_min as int) + ">"@ + render_node(
                m,
                p.id,
                p.frame.x_min as int,
                p.frame.y_min as int,
                w,
                MAX_RENDER_DEPTH as nat,
            ) + "</page>"@
        } else {
            Seq::empty()
        }) + render_pages(m, pages.drop_first(), w)
    }
}

/// The whole window rendering: a self-contained view element.
pub open spec fn render_view(
    m: Map<ContentId, ClientEntryV>,
    snap: Option<DocumentSnapshotV>,
    w: Rect,
) -> Seq<char> {
    "<view>"@ + (match snap {
        Some(s) => render_pages(m, s.pages, w),
        None => Seq::empty(),
    }) + "</view>"@
}

// ---------------------------------------------------------------------------
// Window containment: which fragments the rendering includes.
// ---------------------------------------------------------------------------

/// The fragments whose own markup the node rendering emits, each with the
/// absolute translation it is emitted at.
pub open spec fn rendered_frags(
    m: Map<ContentId, ClientEntryV>,
    id: ContentId,
    tx: int,
    ty: int,
    w: Rect,
    fuel: nat,
) -> Set<(ContentId, int, int)>
    decreases fuel, 0int,
{
    if fuel == 0 || !m.contains_key(id) {
        Set::empty()
    } else {
        let f = m[id].frag;
        match f.bbox() {
            None => Set::empty(),
            Some(b) => if !hits(b, tx, ty, w) {
                Set::empty()
            } else {
                set![(id, tx, ty)].union(
                    match f {
                        FragmentV::Page { children, .. } => rendered_children(
                            m,
                            children,
                            tx,
                            ty,
                            w,
                            (fuel - 1) as nat,
                        ),
                        FragmentV::Frame { children, .. } => rendered_children(
                            m,
                            children,
                            tx,
                            ty,
                            w,
                            (fuel - 1) as nat,
                        ),
                        _ => Set::empty(),
                    },
                )
            },
        }
    }
}

pub open spec fn rendered_children(
    m: Map<ContentId, ClientEntryV>,
    cs: Seq<ChildRef>,
    tx: int,
    ty: int,
    w: Rect,
    fuel: nat,
) -> Set<(ContentId, int, int)>
    decreases fuel, cs.len(),
{
    if cs.len() == 0 {
        Set::empty()
    } else {
        rendered_frags(m, cs[0].id, tx + cs[0].dx, ty + cs[0].dy, w, fuel).union(
            rendered_children(m, cs.drop_first(), tx, ty, w, fuel),
        )
    }
}

/// The fragments the whole view rendering includes.
pub open spec fn rendered_in_view(
    m: Map<ContentId, ClientEntryV>,
    pages: Seq<PageEntry>,
    w: Rect,
) -> Set<(ContentId, int, int)>
    decreases pages.len(),
{
    if pages.len() == 0 {
        Set::empty()
    } else {
        let p = pages[0];
        (if p.frame.spec_intersects(w) {
            rendered_frags(
                m,
                p.id,
                p.frame.x_min as int,
                p.frame.y_min as int,
                w,
                MAX_RENDER_DEPTH as nat,
            )
        } else {
            Set::empty()
        }).union(rendered_in_view(m, pages.drop_first(), w))
    }
}

/// Law (window containment): rendering never includes a fragment whose
/// bounding box, placed where the rendering places it, does not intersect the
/// window.
pub proof fn lemma_window_containment_node(
    m: Map<ContentId, ClientEntryV>,
    id: ContentId,
    tx: int,
    ty: int,
    w: Rect,
    fuel: nat,
)
    ensures
        forall|e: (ContentId, int, int)|
            #[trigger] rendered_frags(m, id, tx, ty, w, fuel).contains(e) ==> {
                &&& m.contains_key(e.0)
                &&& m[e.0].frag.bbox() is Some
                &&& hits(m[e.0].frag.bbox()->0, e.1, e.2, w)
            },
    decreases fuel, 0int,
{
    if fuel == 0 || !m.contains_key(id) {
    } else {
        let f = m[id].frag;
        match f.bbox() {
            None => {},
            Some(b) => {
                if hits(b, tx, ty, w) {
                    match f {
                        FragmentV::Page { children, .. } => {
                            lemma_window_containment_children(
                                m,
                                children,
                                tx,
                                ty,
                                w,
                                (fuel - 1) as nat,
                            );
                        },
                        FragmentV::Frame { children, .. } => {
                            lemma_window_containment_children(
                                m,
                                children,
                                tx,
                                ty,
                                w,
                                (fuel - 1) as nat,
                            );
                        },
                        _ => {},
                    }
                    assert forall|e: (ContentId, int, int)|
                        #[trigger] rendered_frags(m, id, tx, ty, w, fuel).contains(e) implies {
                        &&& m.contains_key(e.0)
                        &&& m[e.0].frag.bbox() is Some
                        &&& hits(m[e.0].frag.bbox()->0, e.1, e.2, w)
                    } by {
                        if e != (id, tx, ty) {
                            match f {
                                FragmentV::Page { children, .. } => {
                                    assert(rendered_children(
                                        m,
                                        children,
                                        tx,
                                        ty,
                                        w,
                                        (fuel - 1) as nat,
                                    ).contains(e));
                                },
                                FragmentV::Frame { children, .. } => {
                                    assert(rendered_children(
                                        m,
                                        children,
                                        tx,
                                        ty,
                                        w,
                                        (fuel - 1) as nat,
                                    ).contains(e));
                                },
                                _ => {},
                            }
                        }
                    }
                }
            },
        }
    }
}

pub proof fn lemma_window_containment_children(
    m: Map<ContentId, ClientEntryV>,
    cs: Seq<ChildRef>,
    tx: int,
    ty: int,
    w: Rect,
    fuel: nat,
)
    ensures
        forall|e: (ContentId, int, int)|
            #[trigger] rendered_children(m, cs, tx, ty, w, fuel).contains(e) ==> {
                &&& m.contains_key(e.0)
                &&& m[e.0].frag.bbox() is Some
                &&& hits(m[e.0].frag.bbox()->0, e.1, e.2, w)
            },
    decreases fuel, cs.len(),
{
    if cs.len() == 0 {
    } else {
        lemma_window_containment_node(m, cs[0].id, tx + cs[0].dx, ty + cs[0].dy, w, fuel);
        lemma_window_containment_children(m, cs.drop_first(), tx, ty, w, fuel);
        assert forall|e: (ContentId, int, int)|
            #[trigger] rendered_children(m, cs, tx, ty, w, fuel).contains(e) implies {
            &&& m.contains_key(e.0)
            &&& m[e.0].frag.bbox() is Some
            &&& hits(m[e.0].frag.bbox()->0, e.1, e.2, w)
        } by {
            if rendered_frags(m, cs[0].id, tx + cs[0].dx, ty + cs[0].dy, w, fuel).contains(e) {
            } else {
                assert(rendered_children(m, cs.drop_first(), tx, ty, w, fuel).contains(e));
            }
        }
    }
}

/// Law (window containment), at the view level, including the page test:
/// every included fragment intersects the window where it is placed.
pub proof fn lemma_window_containment(
    m: Map<ContentId, ClientEntryV>,
    pages: Seq<PageEntry>,
    w: Rect,
)
    ensures
        forall|e: (ContentId, int, int)|
            #[trigger] rendered_in_view(m, pages, w).contains(e) ==> {
                &&& m.contains_key(e.0)
                &&& m[e.0].frag.bbox() is Some
                &&& hits(m[e.0].frag.bbox()->0, e.1, e.2, w)
            },
    decreases pages.len(),
{
    if pages.len() > 0 {
        let p = pages[0];
        if p.frame.spec_intersects(w) {
            lemma_window_containment_node(
                m,
                p.id,
                p.frame.x_min as int,
                p.frame.y_min as int,
                w,
                MAX_RENDER_DEPTH as nat,
            );
        }
        lemma_window_containment(m, pages.drop_first(), w);
        assert forall|e: (ContentId, int, int)|
            #[trigger] rendered_in_view(m, pages, w).contains(e) implies {
            &&& m.contains_key(e.0)
            &&& m[e.0].frag.bbox() is Some
            &&& hits(m[e.0].frag.bbox()->0, e.1, e.2, w)
        } by {
            if p.frame.spec_intersects(w) && rendered_frags(
                m,
                p.id,
                p.frame.x_min as int,
                p.frame.y_min as int,
                w,
                MAX_RENDER_DEPTH as nat,
            ).contains(e) {
            } else {
                assert(rendered_in_view(m, pages.drop_first(), w).contains(e));
            }
        }
    }
}

// ---------------------------------------------------------------------------
// The executable renderer.
// ---------------------------------------------------------------------------

/// Every held fragment is well-formed.
pub open spec fn entries_ok(m: Map<ContentId, ClientEntryV>) -> bool {
    forall|id: ContentId| #[trigger] m.contains_key(id) ==> m[id].frag.wf()
}

/// Every cached body is the leaf markup of a held fragment.
pub open spec fn cache_ok(c: Map<ContentId, String>, m: Map<ContentId, ClientEntryV>) -> bool {
    forall|id: ContentId|
        #[trigger] c.contains_key(id) ==> m.contains_key(id) && c[id]@ == leaf_markup(m[id].frag)
}

/// The position attributes of an emitted element.
fn attr_string(tx: i64, ty: i64) -> (r: String)
    requires
        tx > i64::MIN,
        ty > i64::MIN,
    ensures
        r@ == attr_xy(tx as int, ty as int),
{
    let mut r = " x='".to_owned();
    let xs = int_string(tx);
    r.append(xs.as_str());
    r.append("' y='");
    let ys = int_string(ty);
    r.append(ys.as_str());
    r.append("'");
    proof {
        assert(r@ =~= attr_xy(tx as int, ty as int));
    }
    r
}

/// The leaf body of a held fragment, through the render cache: a hit is
/// reused verbatim, which is sound because content under an identity never
/// changes; a miss is rendered once and remembered.
fn cached_leaf(
    frags: &HashMap<ContentId, ClientEntry>,
    cache: &mut HashMap<ContentId, String>,
    id: ContentId,
) -> (r: String)
    requires
        entries_ok(crate::client::cmap(frags@)),
        cache_ok(old(cache)@, crate::client::cmap(frags@)),
        crate::client::cmap(frags@).contains_key(id),
    ensures
        r@ == leaf_markup(crate::client::cmap(frags@)[id].frag),
        cache_ok(final(cache)@, crate::client::cmap(frags@)),
{
    let ghost m = crate::client::cmap(frags@);
    match cache.get(&id) {
        Some(s) => {
            let r = s.clone();
            proof {
                assert(cache@[id]@ == leaf_markup(m[id].frag));
            }
            r
        },
        None => {
            let entry = match frags.get(&id) {
                Some(e) => e,
                None => {
                    // Unreachable: the identity was required to be held.
                    proof {
                        assert(false);
                    }
                    return String::new();
                },
            };
            proof {
                assert(entry@ == m[id]);
            }
            let s = leaf_string(&entry.frag);
            let copy = s.clone();
            cache.insert(id, copy);
            proof {
                assert forall|id2: ContentId| #[trigger] cache@.contains_key(id2) implies
                    m.contains_key(id2) && cache@[id2]@ == leaf_markup(m[id2].frag) by {
                    if id2 != id {
                        assert(old(cache)@.contains_key(id2));
                    }
                }
            }
            s
        },
    }
}

/// Render one fragment node at an absolute position, restricted to the
/// window.  The accumulated translation stays far from overflow because every
/// stored offset is bounded and the nesting depth is fuel-limited.
fn render_node_exec(
    frags: &HashMap<ContentId, ClientEntry>,
    cache: &mut HashMap<ContentId, String>,
    id: ContentId,
    tx: i64,
    ty: i64,
    w: &Rect,
    fuel: u64,
) -> (r: String)
    requires
        entries_ok(crate::client::cmap(frags@)),
        cache_ok(old(cache)@, crate::client::cmap(frags@)),
        fuel <= MAX_RENDER_DEPTH,
        -(MAX_RENDER_DEPTH as int + 1 - fuel) * COORD_LIMIT <= tx <= (MAX_RENDER_DEPTH as int + 1
            - fuel) * COORD_LIMIT,
        -(MAX_RENDER_DEPTH as int + 1 - fuel) * COORD_LIMIT <= ty <= (MAX_RENDER_DEPTH as int + 1
            - fuel) * COORD_LIMIT,
    ensures
        r@ == render_node(crate::client::cmap(frags@), id, tx as int, ty as int, *w, fuel as nat),
        cache_ok(final(cache)@, crate::client::cmap(frags@)),
    decreases fuel,
{
    let ghost m = crate::client::cmap(frags@);
    if fuel == 0 {
        return "<pruned/>".to_owned();
    }
    let entry = match frags.get(&id) {
        None => {
            let mut r = "<missing id='".to_owned();
            let ds = dec_string(id);
            r.append(ds.as_str());
            r.append("'/>");
            proof {
                assert(!m.contains_key(id));
                assert(r@ =~= render_node(m, id, tx as int, ty as int, *w, fuel as nat));
            }
            return r;
        },
        Some(e) => e,
    };
    proof {
        assert(m.contains_key(id) && entry@ == m[id]);
        assert(m[id].frag.wf());
    }
    match &entry.frag {
        crate::ir::Fragment::Style { .. } => String::new(),
        crate::ir::Fragment::Font(_) => String::new(),
        crate::ir::Fragment::Page { width, height, children } => {
            let b = Rect { x_min: 0, y_min: 0, x_max: *width, y_max: *height };
            if !(b.x_min + tx < w.x_max && w.x_min < b.x_max + tx && b.y_min + ty < w.y_max
                && w.y_min < b.y_max + ty) {
                return String::new();
            }
            render_group(frags, cache, children, tx, ty, w, fuel)
        },
        crate::ir::Fragment::Frame { bbox, children } => {
            let b = *bbox;
            if !(b.x_min + tx < w.x_max && w.x_min < b.x_max + tx && b.y_min + ty < w.y_max
                && w.y_min < b.y_max + ty) {
                return String::new();
            }
            render_group(frags, cache, children, tx, ty, w, fuel)
        },
        crate::ir::Fragment::GlyphRun { bbox, font, size, .. } => {
            let b = *bbox;
            if !(b.x_min + tx < w.x_max && w.x_min < b.x_max + tx && b.y_min + ty < w.y_max
                && w.y_min < b.y_max + ty) {
                return String::new();
            }
            let mut r = "<text".to_owned();
            let at = attr_string(tx, ty);
            r.append(at.as_str());
            r.append(" font='");
            let fs = dec_string(*font);
            r.append(fs.as_str());
            r.append("' size='");
            let ss = dec_string(*size as u64);
            r.append(ss.as_str());
            r.append("'>");
            let body = cached_leaf(frags, cache, id);
            r.append(body.as_str());
            r.append("</text>");
            proof {
                assert(r@ =~= render_node(m, id, tx as int, ty as int, *w, fuel as nat));
            }
            r
        },
        crate::ir::Fragment::Shape { bbox, style, .. } => {
            let b = *bbox;
            if !(b.x_min + tx < w.x_max && w.x_min < b.x_max + tx && b.y_min + ty < w.y_max
                && w.y_min < b.y_max + ty) {
                return String::new();
            }
            let mut r = "<path".to_owned();
            let at = attr_string(tx, ty);
            r.append(at.as_str());
            r.append(" style='");
            let ss = dec_string(*style);
            r.append(ss.as_str());
            r.append("'>");
            let body = cached_leaf(frags, cache, id);
            r.append(body.as_str());
            r.append("</path>");
            proof {
                assert(r@ =~= render_node(m, id, tx as int, ty as int, *w, fuel as nat));
            }
            r
        },
        crate::ir::Fragment::TextMeta { bbox, .. } => {
            let b = *bbox;
            if !(b.x_min + tx < w.x_max && w.x_min < b.x_max + tx && b.y_min + ty < w.y_max
                && w.y_min < b.y_max + ty) {
                return String::new();
            }
            let mut r = "<meta".to_owned();
            let at = attr_string(tx, ty);
            r.append(at.as_str());
            r.append(">");
            let body = cached_leaf(frags, cache, id);
            r.append(body.as_str());
            r.append("</meta>");
            proof {
                assert(r@ =~= render_node(m, id, tx as int, ty as int, *w, fuel as nat));
            }
            r
        },
    }
}

/// Render a group fragment: its intersecting children, each at its offset.
fn render_group(
    frags: &HashMap<ContentId, ClientEntry>,
    cache: &mut HashMap<ContentId, String>,
    children: &Vec<ChildRef>,
    tx: i64,
    ty: i64,
    w: &Rect,
    fuel: u64,
) -> (r: String)
    requires
        entries_ok(crate::client::cmap(frags@)),
        cache_ok(old(cache)@, crate::client::cmap(frags@)),
        1 <= fuel <= MAX_RENDER_DEPTH,
        -(MAX_RENDER_DEPTH as int + 1 - fuel) * COORD_LIMIT <= tx <= (MAX_RENDER_DEPTH as int + 1
            - fuel) * COORD_LIMIT,
        -(MAX_RENDER_DEPTH as int + 1 - fuel) * COORD_LIMIT <= ty <= (MAX_RENDER_DEPTH as int + 1
            - fuel) * COORD_LIMIT,
        forall|q: int| 0 <= q < children@.len() ==> (#[trigger] children@[q]).wf(),
    ensures
        r@ == "<group"@ + attr_xy(tx as int, ty as int) + ">"@ + render_children(
            crate::client::cmap(frags@),
            children@,
            tx as int,
            ty as int,
            *w,
            (fuel - 1) as nat,
        ) + "</group>"@,
        cache_ok(final(cache)@, crate::client::cmap(frags@)),
    decreases fuel, 0int,
{
    let ghost m = crate::client::cmap(frags@);
    let mut r = "<group".to_owned();
    let at = attr_string(tx, ty);
    r.append(at.as_str());
    r.append(">");
    let ghost prefix = "<group"@ + attr_xy(tx as int, ty as int) + ">"@;
    let ghost f1 = (fuel - 1) as nat;
    let mut k: usize = 0;
    proof {
        assert(children@.skip(0) =~= children@);
    }
    while k < children.len()
        invariant
            k <= children@.len(),
            entries_ok(m),
            m == crate::client::cmap(frags@),
            cache_ok(cache@, m),
            1 <= fuel <= MAX_RENDER_DEPTH,
            -(MAX_RENDER_DEPTH as int + 1 - fuel) * COORD_LIMIT <= tx <= (MAX_RENDER_DEPTH as int
                + 1 - fuel) * COORD_LIMIT,
            -(MAX_RENDER_DEPTH as int + 1 - fuel) * COORD_LIMIT <= ty <= (MAX_RENDER_DEPTH as int
                + 1 - fuel) * COORD_LIMIT,
            forall|q: int| 0 <= q < children@.len() ==> (#[trigger] children@[q]).wf(),
            f1 == (fuel - 1) as nat,
            r@ + render_children(m, children@.skip(k as int), tx as int, ty as int, *w, f1)
                == prefix + render_children(m, children@, tx as int, ty as int, *w, f1),
        decreases children@.len() - k,
    {
        let c = children[k];
        proof {
            assert(children@[k as int].wf());
        }
        let ctx = tx + c.dx;
        let cty = ty + c.dy;
        let ghost r_before = r@;
        let piece = render_node_exec(frags, cache, c.id, ctx, cty, w, fuel - 1);
        r.append(piece.as_str());
        proof {
            let tail = children@.skip(k as int);
            assert(tail[0] == children@[k as int]);
            assert(tail.drop_first() =~= children@.skip(k + 1));
            assert(render_children(m, tail, tx as int, ty as int, *w, f1) == render_node(
                m,
                children@[k as int].id,
                tx as int + children@[k as int].dx,
                ty as int + children@[k as int].dy,
                *w,
                f1,
            ) + render_children(m, children@.skip(k + 1), tx as int, ty as int, *w, f1));
            assert(r@ + render_children(m, children@.skip(k + 1), tx as int, ty as int, *w, f1)
                =~= r_before + render_children(m, tail, tx as int, ty as int, *w, f1));
        }
        k = k + 1;
    }
    proof {
        assert(children@.skip(children@.len() as int) =~= Seq::<ChildRef>::empty());
        assert(r@ + render_children(
            m,
            children@.skip(children@.len() as int),
            tx as int,
            ty as int,
            *w,
            f1,
        ) =~= r@);
    }
    r.append("</group>");
    r
}

/// Render every page of a snapshot that intersects the window.
fn render_pages_exec(
    frags: &HashMap<ContentId, ClientEntry>,
    cache: &mut HashMap<ContentId, String>,
    pages: &Vec<PageEntry>,
    w: &Rect,
) -> (r: String)
    requires
        entries_ok(crate::client::cmap(frags@)),
        cache_ok(old(cache)@, crate::client::cmap(frags@)),
        forall|q: int| 0 <= q < pages@.len() ==> (#[trigger] pages@[q]).frame.bounded(),
    ensures
        r@ == render_pages(crate::client::cmap(frags@), pages@, *w),
        cache_ok(final(cache)@, crate::client::cmap(frags@)),
{
    let ghost m = crate::client::cmap(frags@);
    let mut r = String::new();
    let mut k: usize = 0;
    proof {
        assert(pages@.skip(0) =~= pages@);
        assert(r@ + render_pages(m, pages@.skip(0), *w) =~= render_pages(m, pages@, *w));
    }
    while k < pages.len()
        invariant
            k <= pages@.len(),
            entries_ok(m),
            m == crate::client::cmap(frags@),
            cache_ok(cache@, m),
            forall|q: int| 0 <= q < pages@.len() ==> (#[trigger] pages@[q]).frame.bounded(),
            r@ + render_pages(m, pages@.skip(k as int), *w) == render_pages(m, pages@, *w),
        decreases pages@.len() - k,
    {
        let p = pages[k];
        proof {
            assert(pages@[k as int].frame.bounded());
        }
        let ghost r_before = r@;
        if p.frame.intersects(w) {
            r.append("<page");
            let at = attr_string(p.frame.x_min, p.frame.y_min);
            r.append(at.as_str());
            r.append(">");
            let body = render_node_exec(
                frags,
                cache,
                p.id,
                p.frame.x_min,
                p.frame.y_min,
                w,
                MAX_RENDER_DEPTH,
            );
            r.append(body.as_str());
            r.append("</page>");
        }
        proof {
            let tail = pages@.skip(k as int);
            assert(tail[0] == pages@[k as int]);
            assert(tail.drop_first() =~= pages@.skip(k + 1));
            assert(r@ + render_pages(m, pages@.skip(k + 1), *w) =~= r_before + render_pages(
                m,
                tail,
                *w,
            ));
        }
        k = k + 1;
    }
    proof {
        assert(pages@.skip(pages@.len() as int) =~= Seq::<PageEntry>::empty());
        assert(r@ + render_pages(m, pages@.skip(pages@.len() as int), *w) =~= r@);
    }
    r
}

impl ClientStore {
    /// Render the sub-region of the current document that intersects the
    /// window, as a self-contained markup fragment.  Only the render cache
    /// changes; the rendering itself is a function of the fragment map, the
    /// snapshot and the window alone, whatever the cache held.
    pub fn render_in_window(&mut self, window: &Rect) -> (r: String)
        requires
            old(self).wf(),
        ensures
            final(self).wf(),
            final(self).fragments == old(self).fragments,
            final(self).snapshot == old(self).snapshot,
            r@ == render_view(old(self).fmap(), old(self).snapshot_v(), *window),
    {
        proof {
            assert(entries_ok(self.fmap()));
            assert(cache_ok(self.render_cache@, self.fmap()));
        }
        let mut r = "<view>".to_owned();
        match &self.snapshot {
            Some(s) => {
                proof {
                    assert(s@.wf());
                }
                let body = render_pages_exec(
                    &self.fragments,
                    &mut self.render_cache,
                    &s.pages,
                    window,
                );
                r.append(body.as_str());
            },
            None => {},
        }
        r.append("</view>");
        proof {
            assert(r@ =~= render_view(old(self).fmap(), old(self).snapshot_v(), *window));
        }
        r
    }
}

} // verus!
