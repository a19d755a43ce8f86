//! Pixel frames of a cursor icon, and the choice among the sizes that a
//! legacy cursor file holds.

use vstd::prelude::*;

verus! {

/// A cursor image.
#[derive(Debug)]
pub struct Image {
    /// The nominal size of the image.
    pub size: u32,
    /// The actual width of the image.
    pub width: u32,
    /// The actual height of the image.
    pub height: u32,
    /// The x coordinate of the hotspot, in output pixels.
    pub xhot: u32,
    /// The y coordinate of the hotspot, in output pixels.
    pub yhot: u32,
    /// The delay before the next frame, in milliseconds; 0 where none is given.
    pub delay: u32,
    /// The pixels, four bytes (RGBA) each, row after row.
    pub pixels: Vec<u8>,
}

/// What an `Image` holds, as plain values.
pub struct ImageView {
    pub size: u32,
    pub width: u32,
    pub height: u32,
    pub xhot: u32,
    pub yhot: u32,
    pub delay: u32,
    pub pixels: Seq<u8>,
}

impl View for Image {
    type V = ImageView;

    open spec fn view(&self) -> ImageView {
        ImageView {
            size: self.size,
            width: self.width,
            height: self.height,
            xhot: self.xhot,
            yhot: self.yhot,
            delay: self.delay,
            pixels: self.pixels@,
        }
    }
}

/// The views of a sequence of images.
pub open spec fn image_views(v: Seq<Image>) -> Seq<ImageView> {
    v.map_values(|i: Image| i@)
}

/// A frame whose dimensions are within the legacy format's bounds, whose
/// hotspot lies inside it, and whose buffer holds four bytes for each pixel.
pub open spec fn legacy_frame_ok(f: ImageView) -> bool {
    &&& 0 < f.width <= 0x7fff
    &&& 0 < f.height <= 0x7fff
    &&& f.xhot <= f.width
    &&& f.yhot <= f.height
    &&& f.pixels.len() == 4 * f.width * f.height
}

/// The frames that the legacy cursor file `content` holds, in file order, or
/// nothing when `content` is not such a file.
pub uninterp spec fn decoded_frames(content: Seq<u8>) -> Option<Seq<ImageView>>;

/// Relies on `xcursor::parser::parse_xcursor`: the image records of an Xcursor
/// file in file order, or `None` when the bytes are not one. Its parser accepts
/// a record only with a width and height in 1..=0x7fff and the hotspot inside,
/// and then reads 4 * width * height bytes of pixels.
#[verifier::external_body]
fn decode_xcursor(content: &[u8]) -> (r: Option<Vec<Image>>)
    ensures
        match r {
            Some(v) => decoded_frames(content@) == Some(image_views(v@)),
            None => decoded_frames(content@) is None,
        },
        r is Some ==> forall|i: int| 0 <= i < r->0@.len() ==> legacy_frame_ok(#[trigger] r->0@[i]@),
{
    xcursor::parser::parse_xcursor(content).map(|images| images.into_iter().map(|x| Image {
        size: x.size,
        width: x.width,
        height: x.height,
        xhot: x.xhot,
        yhot: x.yhot,
        delay: x.delay,
        pixels: x.pixels_rgba,
    }).collect())
}

/// How far the nominal size `a` lies from the requested size `b`.
pub open spec fn size_distance(a: u32, b: u32) -> int {
    if a >= b {
        a - b
    } else {
        b - a
    }
}

/// The index of the first frame whose nominal size lies nearest to `size`.
pub open spec fn nearest_index(s: Seq<ImageView>, size: u32) -> int
    decreases s.len(),
{
    if s.len() <= 1 {
        0
    } else {
        let k = nearest_index(s.drop_last(), size);
        if size_distance(s.last().size, size) < size_distance(s[k].size, size) {
            s.len() - 1
        } else {
            k
        }
    }
}

/// The frames of `s` whose nominal size is `n`, in order.
pub open spec fn frames_of_size(s: Seq<ImageView>, n: u32) -> Seq<ImageView>
    decreases s.len(),
{
    if s.len() == 0 {
        s
    } else if s.last().size == n {
        frames_of_size(s.drop_last(), n).push(s.last())
    } else {
        frames_of_size(s.drop_last(), n)
    }
}

/// The frames at the embedded size nearest to `size`: nothing for no frames.
pub open spec fn nearest_frames_of(s: Seq<ImageView>, size: u32) -> Option<Seq<ImageView>> {
    if s.len() == 0 {
        None
    } else {
        Some(frames_of_size(s, s[nearest_index(s, size)].size))
    }
}

/// What a legacy cursor file gives at `size`: nothing when it cannot be read
/// as one or holds no frame, else its frames at the nearest embedded size.
pub open spec fn legacy_frames(content: Seq<u8>, size: u32) -> Option<Seq<ImageView>> {
    match decoded_frames(content) {
        Some(s) => nearest_frames_of(s, size),
        None => None,
    }
}

/// The nearest index is a frame at the least distance from `size`, and no
/// earlier frame is as near.
pub proof fn lemma_nearest_index(s: Seq<ImageView>, size: u32)
    requires
        s.len() > 0,
    ensures
        0 <= nearest_index(s, size) < s.len(),
        forall|j: int|
            0 <= j < s.len() ==> size_distance(s[nearest_index(s, size)].size, size)
                <= size_distance(#[trigger] s[j].size, size),
        forall|j: int|
            0 <= j < nearest_index(s, size) ==> size_distance(s[nearest_index(s, size)].size, size)
                < size_distance(#[trigger] s[j].size, size),
    decreases s.len(),
{
    if s.len() > 1 {
        lemma_nearest_index(s.drop_last(), size);
        let k = nearest_index(s.drop_last(), size);
        assert(s.drop_last()[k] == s[k]);
        let m = nearest_index(s, size);
        assert forall|j: int| 0 <= j < s.len() implies size_distance(s[m].size, size)
            <= size_distance(#[trigger] s[j].size, size) by {
            if j < s.len() - 1 {
                assert(s.drop_last()[j] == s[j]);
            }
        }
        assert forall|j: int| 0 <= j < m implies size_distance(s[m].size, size) < size_distance(
            #[trigger] s[j].size,
            size,
        ) by {
            assert(s.drop_last()[j] == s[j]);
        }
    }
}

/// The frames of `images` at the embedded size nearest to `size`, in their
/// order, or nothing when there are no frames. Ties between two sizes go to
/// the size of the earlier frame.
pub fn nearest_frames(images: Vec<Image>, size: u32) -> (r: Option<Vec<Image>>)
    ensures
        match r {
            Some(v) => nearest_frames_of(image_views(images@), size) == Some(image_views(v@)),
            None => nearest_frames_of(image_views(images@), size) is None,
        },
{
    let ghost all = image_views(images@);
    let n = images.len();
    if n == 0 {
        return None;
    }
    let mut best: usize = 0;
    let mut i: usize = 1;
    assert(all.subrange(0, 1).len() == 1);
    while i < n
        invariant
            1 <= i <= n,
            n == images@.len(),
            all == image_views(images@),
            best == nearest_index(all.subrange(0, i as int), size),
            best < i,
        decreases n - i,
    {
        let ghost pre = all.subrange(0, i as int);
        assert(all.subrange(0, i + 1).drop_last() =~= pre);
        assert(pre[best as int] == all[best as int]);
        let d_new = if images[i].size >= size { images[i].size - size } else { size - images[i].size };
        let d_best = if images[best].size >= size {
            images[best].size - size
        } else {
            size - images[best].size
        };
        if d_new < d_best {
            best = i;
        }
        i += 1;
    }
    assert(all.subrange(0, n as int) =~= all);
    let target = images[best].size;
    assert(target == all[nearest_index(all, size)].size);
    let mut rest = images;
    let mut out: Vec<Image> = Vec::new();
    let mut j: usize = 0;
    while j < n
        invariant
            j <= n,
            n == all.len(),
            image_views(rest@) == all.subrange(j as int, n as int),
            image_views(out@) == frames_of_size(all.subrange(0, j as int), target),
        decreases n - j,
    {
        assert(image_views(rest@).len() == rest@.len());
        let ghost before = rest@;
        assert(image_views(before)[0] == before[0]@);
        let img = rest.remove(0);
        assert(rest@ =~= before.subrange(1, before.len() as int));
        assert(img@ == all[j as int]);
        assert(all.subrange(0, j + 1).drop_last() =~= all.subrange(0, j as int));
        if img.size == target {
            out.push(img);
            assert(image_views(out@) =~= frames_of_size(all.subrange(0, j as int), target).push(
                all[j as int],
            ));
        }
        assert forall|k: int| 0 <= k < rest@.len() implies #[trigger] image_views(rest@)[k]
            == all[j + 1 + k] by {
            assert(image_views(before)[k + 1] == before[k + 1]@);
        }
        j += 1;
        assert(image_views(rest@) =~= all.subrange(j as int, n as int));
    }
    assert(all.subrange(0, n as int) =~= all);
    Some(out)
}

/// The frames of the legacy cursor file `content` at the embedded size nearest
/// to `size`; nothing when the bytes are not such a file or hold no frame.
pub fn xcursor_frames(content: &[u8], size: u32) -> (r: Option<Vec<Image>>)
    ensures
        match r {
            Some(v) => legacy_frames(content@, size) == Some(image_views(v@)),
            None => legacy_frames(content@, size) is None,
        },
        r is Some ==> forall|i: int| 0 <= i < r->0@.len() ==> legacy_frame_ok(#[trigger] r->0@[i]@),
{
    match decode_xcursor(content) {
        None => None,
        Some(images) => {
            let ghost decoded = images@;
            let r = nearest_frames(images, size);
            proof {
                if r is Some {
                    let s = image_views(decoded);
                    lemma_frames_of_size_members(s, s[nearest_index(s, size)].size);
                    assert forall|i: int| 0 <= i < r->0@.len() implies legacy_frame_ok(
                        #[trigger] r->0@[i]@,
                    ) by {
                        assert(image_views(r->0@)[i] == r->0@[i]@);
                    }
                }
            }
            r
        },
    }
}

/// Every frame of `frames_of_size(s, n)` is a frame of `s`.
proof fn lemma_frames_of_size_members(s: Seq<ImageView>, n: u32)
    ensures
        forall|i: int|
            0 <= i < frames_of_size(s, n).len() ==> exists|j: int|
                0 <= j < s.len() && s[j] == #[trigger] frames_of_size(s, n)[i],
    decreases s.len(),
{
    if s.len() > 0 {
        lemma_frames_of_size_members(s.drop_last(), n);
        let f = frames_of_size(s, n);
        assert forall|i: int| 0 <= i < f.len() implies exists|j: int|
            0 <= j < s.len() && s[j] == #[trigger] f[i] by {
            let g = frames_of_size(s.drop_last(), n);
            if i < g.len() {
                let j = choose|j: int| 0 <= j < s.drop_last().len() && s.drop_last()[j] == g[i];
                assert(s[j] == f[i]);
            } else {
                assert(s[s.len() - 1] == f[i]);
            }
        }
    }
}

/// The view of a frame that may have failed.
pub open spec fn outcome_view(o: Option<Image>) -> Option<ImageView> {
    match o {
        Some(i) => Some(i@),
        None => None,
    }
}

/// The views of a sequence of frame outcomes.
pub open spec fn outcome_views(v: Seq<Option<Image>>) -> Seq<Option<ImageView>> {
    v.map_values(|o: Option<Image>| outcome_view(o))
}

/// All frames in order, or nothing where any of them failed.
pub open spec fn all_frames(rs: Seq<Option<ImageView>>) -> Option<Seq<ImageView>>
    decreases rs.len(),
{
    if rs.len() == 0 {
        Some(Seq::empty())
    } else {
        match (all_frames(rs.drop_last()), rs.last()) {
            (Some(p), Some(f)) => Some(p.push(f)),
            _ => None,
        }
    }
}

/// What an SVG icon gives from the outcomes of its frames, in metadata order:
/// nothing when it has no frame or when any frame failed, else every frame.
pub open spec fn vector_frames(rs: Seq<Option<ImageView>>) -> Option<Seq<ImageView>> {
    if rs.len() == 0 {
        None
    } else {
        all_frames(rs)
    }
}

proof fn lemma_all_frames_failed(rs: Seq<Option<ImageView>>, j: int)
    requires
        0 <= j < rs.len(),
        rs[j] is None,
    ensures
        all_frames(rs) is None,
    decreases rs.len(),
{
    if j < rs.len() - 1 {
        assert(rs.drop_last()[j] == rs[j]);
        lemma_all_frames_failed(rs.drop_last(), j);
    }
}

/// The frames of an SVG icon from the outcomes of rendering each of its
/// frames, in metadata order: nothing when there is no frame or any failed.
pub fn svg_frames(rendered: Vec<Option<Image>>) -> (r: Option<Vec<Image>>)
    ensures
        match r {
            Some(v) => vector_frames(outcome_views(rendered@)) == Some(image_views(v@)),
            None => vector_frames(outcome_views(rendered@)) is None,
        },
{
    let ghost all = outcome_views(rendered@);
    let n = rendered.len();
    if n == 0 {
        return None;
    }
    let mut rest = rendered;
    let mut out: Vec<Image> = Vec::new();
    let mut j: usize = 0;
    assert(all.subrange(0, 0).len() == 0);
    while j < n
        invariant
            j <= n,
            n == all.len(),
            all == outcome_views(rendered@),
            outcome_views(rest@) == all.subrange(j as int, n as int),
            all_frames(all.subrange(0, j as int)) == Some(image_views(out@)),
        decreases n - j,
    {
        assert(outcome_views(rest@).len() == rest@.len());
        let ghost before = rest@;
        assert(outcome_views(before)[0] == outcome_view(before[0]));
        let item = rest.remove(0);
        assert(rest@ =~= before.subrange(1, before.len() as int));
        assert(all.subrange(0, j + 1).drop_last() =~= all.subrange(0, j as int));
        match item {
            Some(img) => {
                out.push(img);
                assert(image_views(out@) =~= image_views(out@).drop_last().push(img@));
            },
            None => {
                proof {
                    assert(all.subrange(j as int, n as int)[0] == all[j as int]);
                    lemma_all_frames_failed(all, j as int);
                }
                return None;
            },
        }
        assert forall|k: int| 0 <= k < rest@.len() implies #[trigger] outcome_views(rest@)[k]
            == all[j + 1 + k] by {
            assert(outcome_views(before)[k + 1] == outcome_view(before[k + 1]));
        }
        j += 1;
        assert(outcome_views(rest@) =~= all.subrange(j as int, n as int));
    }
    assert(all.subrange(0, n as int) =~= all);
    Some(out)
}

/// Reading one legacy cursor file twice at the same size gives the same
/// frames, pixel for pixel.
pub proof fn lemma_legacy_frames_repeatable(
    content: Seq<u8>,
    size: u32,
    first: Seq<ImageView>,
    second: Seq<ImageView>,
)
    requires
        legacy_frames(content, size) == Some(first),
        legacy_frames(content, size) == Some(second),
    ensures
        first == second,
        forall|i: int| 0 <= i < first.len() ==> (#[trigger] first[i]).pixels == second[i].pixels,
{
}

/// A legacy file that holds no frame gives nothing, not an empty sequence.
pub proof fn lemma_no_frames_not_found(content: Seq<u8>, size: u32)
    requires
        decoded_frames(content) == Some(Seq::<ImageView>::empty()),
    ensures
        legacy_frames(content, size) is None,
{
}

/// An SVG icon whose metadata lists no frame gives nothing.
pub proof fn lemma_no_vector_frames_not_found(rs: Seq<Option<ImageView>>)
    requires
        rs.len() == 0,
    ensures
        vector_frames(rs) is None,
{
}

/// Among legacy frames, those returned for `size` are exactly those at one
/// embedded size, which no other embedded size is nearer to `size` than, and
/// which is the first such size in frame order.
pub proof fn lemma_nearest_size_selected(s: Seq<ImageView>, size: u32)
    requires
        s.len() > 0,
    ensures
        exists|k: int|
            #![trigger s[k]]
            0 <= k < s.len() && nearest_frames_of(s, size) == Some(frames_of_size(s, s[k].size))
                && (forall|j: int|
                0 <= j < s.len() ==> size_distance(s[k].size, size) <= size_distance(
                    #[trigger] s[j].size,
                    size,
                )) && (forall|j: int|
                0 <= j < k ==> size_distance(s[k].size, size) < size_distance(
                    #[trigger] s[j].size,
                    size,
                )),
{
    lemma_nearest_index(s, size);
    let k = nearest_index(s, size);
    assert(nearest_frames_of(s, size) == Some(frames_of_size(s, s[k].size)));
}

} // verus!
