//! The document view: every rendered row, where the view is scrolled to, and
//! the status message.
//!
//! Time, files and image decoding belong to the program around the library:
//! it passes the clock in (milliseconds on a monotonic clock), hands reloaded
//! text over, and loads the images a render asked for before rendering again.

use vstd::prelude::*;

use crate::render::canvas::{ElementView, RenderElement, element_view, elements_view, line_view};
use crate::render::image::{DescV, Image, ImageDescriptor, ImageResolver, ImageSet, ImageV, SetV, desc_view, image_view, set_view};
use crate::render::inline::SpanV;
use crate::render::{opt_set_view, render_markdown, renders_as};
use crate::doc::{comrak_xml, readable_xml};
use crate::style::{Line, clone_spans, spans_view};

verus! {

/// How long a status-line message stays up, in milliseconds.
pub const MESSAGE_TTL_MS: u64 = 3000;

/// The width a document is rendered at before the first frame is laid out.
pub const DEFAULT_WIDTH: usize = 80;

/// A transient note shown in the status line ("reloaded", or an error).
#[derive(Debug)]
pub struct Message {
    pub text: String,
    pub is_error: bool,
    /// When it was shown, on the app's clock.
    pub shown_at: u64,
}

/// An image and the row of `App::lines` it starts on. The rows it covers are
/// blank in `lines`; the UI draws the image over them.
#[derive(Debug)]
pub struct PlacedImage {
    pub row: usize,
    pub image: Image,
}

/// The view of a placed image: its first row, and the image.
pub open spec fn placed_view(p: PlacedImage) -> (int, ImageV) {
    (p.row as int, image_view(p.image))
}

/// The views of rows.
pub open spec fn lines_view(ls: Seq<Line>) -> Seq<Seq<SpanV>> {
    ls.map_values(|l: Line| line_view(l))
}

/// The views of placed images.
pub open spec fn placed_views(ps: Seq<PlacedImage>) -> Seq<(int, ImageV)> {
    ps.map_values(|p: PlacedImage| placed_view(p))
}

/// `n` blank rows.
pub open spec fn blank_rows(n: nat) -> Seq<Seq<SpanV>> {
    Seq::new(n, |_i: int| Seq::<SpanV>::empty())
}

/// Rendered elements laid out as rows: text rows as they are, and for each
/// image as many blank rows as it is tall, with the image placed at the
/// first of them.
pub open spec fn spec_place(es: Seq<ElementView>) -> (Seq<Seq<SpanV>>, Seq<(int, ImageV)>)
    decreases es.len(),
{
    if es.len() == 0 {
        (seq![], seq![])
    } else {
        let (rows, imgs) = spec_place(es.drop_last());
        match es.last() {
            ElementView::Lines(ls) => (rows + ls, imgs),
            ElementView::Image(img) => (rows + blank_rows(img.1 as nat), imgs.push((rows.len() as int, img))),
        }
    }
}

/// The furthest the view can scroll: the last row at the bottom of the view.
pub open spec fn spec_max_scroll(rows: int, height: int) -> int {
    if rows > height { rows - height } else { 0 }
}

/// `scroll` moved down `n` rows, stopping at `max`.
pub open spec fn spec_scroll_down(scroll: int, n: int, max: int) -> int {
    let s = if scroll + n > usize::MAX { usize::MAX as int } else { scroll + n };
    if s > max { max } else { s }
}

/// `scroll` moved up `n` rows, stopping at the top.
pub open spec fn spec_scroll_up(scroll: int, n: int) -> int {
    if scroll > n { scroll - n } else { 0 }
}

/// What a page moves: the view's height but one row, and at least one.
pub open spec fn page_step(height: int) -> int {
    if height > 1 { height - 1 } else { 1 }
}

/// What half a page moves: half the view's height, and at least one.
pub open spec fn half_page_step(height: int) -> int {
    if height / 2 > 1 { height / 2 } else { 1 }
}

/// Whether an image of `h` rows at `row` shows in a view of `height` rows
/// from `top`.
pub open spec fn shows(row: int, h: int, top: int, height: int) -> bool {
    row < top + height && row + h > top
}

/// Where a row sits relative to the view's top, capped to what an `i64` holds.
pub open spec fn offset(row: int, top: int) -> int {
    if row - top > i64::MAX { i64::MAX as int } else { row - top }
}

/// The images showing in a view of `height` rows from `top`, each with its
/// index and the view row it starts on (negative when its top has scrolled
/// off).
pub open spec fn spec_visible_images(imgs: Seq<(int, ImageV)>, top: int, height: int) -> Seq<(int, int)>
    decreases imgs.len(),
{
    if imgs.len() == 0 {
        seq![]
    } else {
        let rest = spec_visible_images(imgs.drop_last(), top, height);
        let p = imgs.last();
        if shows(p.0, p.1.1 as int, top, height) {
            rest.push(((imgs.len() - 1) as int, offset(p.0, top)))
        } else {
            rest
        }
    }
}

/// The name of the last component of a path, as `Path::file_name` gives it.
pub uninterp spec fn path_file_name(p: Seq<char>) -> Option<Seq<char>>;

/// `Path::file_name` of std, turned back into text. Its result depends on the
/// path alone, under the path rules of the platform the program is built for.
#[verifier::external_body]
fn file_name_of(p: &str) -> (r: Option<String>)
    ensures
        crate::render::image::opt_view(r) == path_file_name(p@),
{
    std::path::Path::new(p).file_name().and_then(|n| n.to_str()).map(|n| n.to_string())
}

/// Lays rendered elements out as rows and placed images.
pub fn place(elements: &Vec<RenderElement>) -> (r: (Vec<Line>, Vec<PlacedImage>))
    ensures
        (lines_view(r.0@), placed_views(r.1@)) == spec_place(elements_view(elements@)),
{
    let ghost ev = elements_view(elements@);
    let mut lines: Vec<Line> = Vec::new();
    let mut images: Vec<PlacedImage> = Vec::new();
    let mut k: usize = 0;
    assert(ev.take(0) =~= Seq::<ElementView>::empty());
    assert(lines_view(lines@) =~= Seq::<Seq<SpanV>>::empty());
    assert(placed_views(images@) =~= Seq::<(int, ImageV)>::empty());
    while k < elements.len()
        invariant
            k <= elements@.len(),
            ev == elements_view(elements@),
            (lines_view(lines@), placed_views(images@)) == spec_place(ev.take(k as int)),
        decreases elements@.len() - k,
    {
        assert(ev.take(k + 1).drop_last() =~= ev.take(k as int));
        assert(ev[k as int] == element_view(elements@[k as int]));
        let ghost lv0 = lines_view(lines@);
        let ghost iv0 = placed_views(images@);
        match &elements[k] {
            RenderElement::Lines(ls) => {
                let mut j: usize = 0;
                let ghost lsv = lines_view(ls@);
                while j < ls.len()
                    invariant
                        j <= ls@.len(),
                        lsv == lines_view(ls@),
                        lines_view(lines@) == lv0 + lsv.take(j as int),
                        placed_views(images@) == iv0,
                    decreases ls@.len() - j,
                {
                    let spans = clone_spans(ls[j].spans.as_slice());
                    let ghost l0 = lines_view(lines@);
                    lines.push(Line::from_spans(spans));
                    assert(lines_view(lines@) =~= l0.push(lsv[j as int]));
                    j = j + 1;
                    assert(lv0 + lsv.take(j as int) =~= (lv0 + lsv.take(j - 1)).push(lsv[j - 1]));
                }
                assert(lsv.take(ls@.len() as int) =~= lsv);
            },
            RenderElement::Image(img) => {
                let row = lines.len();
                let h = img.height;
                let mut j: u16 = 0;
                assert(lv0 + blank_rows(0) =~= lv0);
                while j < h
                    invariant
                        j <= h,
                        lines_view(lines@) == lv0 + blank_rows(j as nat),
                        placed_views(images@) == iv0,
                    decreases h - j,
                {
                    let ghost l0 = lines_view(lines@);
                    lines.push(Line::from_spans(Vec::new()));
                    assert(spans_view(Seq::<crate::style::Span>::empty()) =~= Seq::<SpanV>::empty());
                    assert(lines_view(lines@) =~= l0.push(Seq::<SpanV>::empty()));
                    j = j + 1;
                    assert(lv0 + blank_rows(j as nat) =~= (lv0 + blank_rows((j - 1) as nat)).push(Seq::<SpanV>::empty()));
                }
                let copy = Image { desc: img.desc.copy(), height: img.height };
                let ghost pv = (row as int, image_view(copy));
                assert(image_view(copy) == image_view(*img));
                images.push(PlacedImage { row, image: copy });
                assert(placed_views(images@) =~= iv0.push(pv));
            },
        }
        k = k + 1;
    }
    assert(ev.take(elements@.len() as int) =~= ev);
    (lines, images)
}

/// The document view.
pub struct App {
    pub should_quit: bool,
    pub md_filepath: String,
    /// The Markdown source, kept so it can be re-rendered when the width changes.
    pub source: String,
    /// Every row of the document, one per terminal row. An image's rows are
    /// blank placeholders, so scrolling treats them like any other line.
    pub lines: Vec<Line>,
    /// The images to draw over their placeholder rows, in document order.
    pub images: Vec<PlacedImage>,
    /// `None` shows images as their alt text.
    pub image_set: Option<ImageSet>,
    /// Images the last render could show, but that are neither loaded nor
    /// known to be unloadable: the program loads them and renders again.
    pub wanted: Vec<ImageDescriptor>,
    /// Index of the first visible row.
    pub scroll: usize,
    pub viewport_height: usize,
    /// Width `lines` was rendered at, or `None` until the first frame is laid out.
    pub render_width: Option<usize>,
    pub message: Option<Message>,
}

/// The image set an app renders with.
pub open spec fn set_of(a: App) -> Option<SetV> {
    match a.image_set {
        Some(s) => Some(set_view(s)),
        None => None,
    }
}

/// Whether `b` holds `a`'s document: its file, source, rows, placed images,
/// image set and wanted images, and the width and height they were laid out for.
pub open spec fn same_document(a: App, b: App) -> bool {
    &&& b.md_filepath == a.md_filepath
    &&& b.source == a.source
    &&& b.lines == a.lines
    &&& b.images == a.images
    &&& b.image_set == a.image_set
    &&& b.wanted == a.wanted
    &&& b.render_width == a.render_width
    &&& b.viewport_height == a.viewport_height
}

/// Whether `b` is `a` with at most its scroll position changed.
pub open spec fn only_scroll_changed(a: App, b: App) -> bool {
    &&& same_document(a, b)
    &&& b.should_quit == a.should_quit
    &&& b.message == a.message
}

/// Whether the app's rows, images and wanted images are what rendering its
/// source at `width` gives (nothing, where the parser's XML is not the
/// printing of a tree that reads back).
pub open spec fn rendered(a: App, width: usize) -> bool {
    if readable_xml(comrak_xml(a.source@)) {
        exists|es: Seq<ElementView>, misses: Seq<DescV>| #![trigger spec_place(es), renders_as(a.source@, width, set_of(a), es, misses)]
            renders_as(a.source@, width, set_of(a), es, misses)
            && (lines_view(a.lines@), placed_views(a.images@)) == spec_place(es)
            && a.wanted@.map_values(|d: ImageDescriptor| desc_view(d)) == misses
    } else {
        a.lines@.len() == 0 && a.images@.len() == 0 && a.wanted@.len() == 0
    }
}

impl App {
    /// The furthest the view can scroll.
    pub open spec fn spec_max(&self) -> int {
        spec_max_scroll(self.lines@.len() as int, self.viewport_height as int)
    }

    pub fn new(md_filepath: String, source: String, with_images: bool) -> (r: App)
        ensures
            !r.should_quit,
            r.md_filepath == md_filepath,
            r.source == source,
            r.lines@.len() == 0,
            r.images@.len() == 0,
            r.wanted@.len() == 0,
            r.scroll == 0,
            r.viewport_height == 0,
            r.render_width is None,
            r.message is None,
            with_images <==> r.image_set is Some,
            r.image_set matches Some(s) ==> set_view(s) == (
                match crate::render::image::path_parent(md_filepath@) {
                    Some(d) => d,
                    None => Seq::<char>::empty(),
                },
                Seq::<ImageV>::empty(),
                Seq::<DescV>::empty(),
            ),
    {
        let image_set = if with_images {
            Some(ImageSet::new(ImageResolver::new(md_filepath.as_str())))
        } else {
            None
        };
        App {
            should_quit: false,
            md_filepath,
            source,
            lines: Vec::new(),
            images: Vec::new(),
            image_set,
            wanted: Vec::new(),
            scroll: 0,
            viewport_height: 0,
            render_width: None,
            message: None,
        }
    }

    /// Expires the status message once it has been up long enough.
    pub fn tick(&mut self, now: u64)
        ensures
            final(self).message is None <==> (old(self).message is None || (old(self).message matches Some(m)
                && now - m.shown_at >= MESSAGE_TTL_MS)),
            final(self).message is Some ==> final(self).message == old(self).message,
            final(self).scroll == old(self).scroll,
            final(self).should_quit == old(self).should_quit,
            same_document(*old(self), *final(self)),
    {
        let expired = match &self.message {
            Some(m) => now >= m.shown_at && now - m.shown_at >= MESSAGE_TTL_MS,
            None => false,
        };
        if expired {
            self.message = None;
        }
    }

    pub fn quit(&mut self)
        ensures
            final(self).should_quit,
            final(self).scroll == old(self).scroll,
            final(self).message == old(self).message,
            same_document(*old(self), *final(self)),
    {
        self.should_quit = true;
    }

    /// Just the file's name, for the title bar.
    pub fn file_name(&self) -> (r: String)
        ensures
            r@ == match path_file_name(self.md_filepath@) {
                Some(n) => n,
                None => self.md_filepath@,
            },
    {
        match file_name_of(self.md_filepath.as_str()) {
            Some(n) => n,
            None => self.md_filepath.clone(),
        }
    }

    /// Re-renders the source at the current width.
    pub fn rebuild(&mut self)
        ensures
            rendered(*final(self), match old(self).render_width {
                Some(w) => w,
                None => DEFAULT_WIDTH,
            }),
            final(self).source == old(self).source,
            final(self).image_set == old(self).image_set,
            final(self).render_width == old(self).render_width,
            final(self).viewport_height == old(self).viewport_height,
            final(self).scroll == old(self).scroll,
            final(self).message == old(self).message,
            final(self).should_quit == old(self).should_quit,
            final(self).md_filepath == old(self).md_filepath,
    {
        let width = match self.render_width {
            Some(w) => w,
            None => DEFAULT_WIDTH,
        };
        let set = self.image_set.as_ref();
        assert(opt_set_view(set) == set_of(*self));
        let (elements, misses) = render_markdown(self.source.as_str(), width, set);
        let ghost ev = elements_view(elements@);
        let ghost mv = misses@.map_values(|d: ImageDescriptor| desc_view(d));
        let (lines, images) = place(&elements);
        self.lines = lines;
        self.images = images;
        self.wanted = misses;
        proof {
            if readable_xml(comrak_xml(self.source@)) {
                assert(spec_place(ev) == (lines_view(self.lines@), placed_views(self.images@)));
                assert(self.wanted@.map_values(|d: ImageDescriptor| desc_view(d)) == mv);
            } else {
                assert(ev.len() == 0);
                assert(spec_place(ev) == (Seq::<Seq<SpanV>>::empty(), Seq::<(int, ImageV)>::empty()));
                assert(lines_view(self.lines@).len() == 0);
                assert(placed_views(self.images@).len() == 0);
            }
        }
    }

    /// Tells the app how much room it has. Called every frame, but only
    /// re-renders when the width changed, that is, on a resize.
    pub fn set_viewport(&mut self, width: usize, height: usize)
        ensures
            final(self).render_width == Some(width),
            final(self).viewport_height == height,
            old(self).render_width != Some(width) ==> rendered(*final(self), width),
            old(self).render_width == Some(width) ==> final(self).lines == old(self).lines
                && final(self).images == old(self).images && final(self).wanted == old(self).wanted,
            final(self).source == old(self).source,
            final(self).md_filepath == old(self).md_filepath,
            final(self).image_set == old(self).image_set,
            final(self).message == old(self).message,
            final(self).should_quit == old(self).should_quit,
            final(self).scroll == if old(self).scroll <= final(self).spec_max() { old(self).scroll as int } else { final(self).spec_max() },
            final(self).scroll <= final(self).spec_max(),
    {
        if self.render_width != Some(width) {
            self.render_width = Some(width);
            self.rebuild();
        }
        self.viewport_height = height;
        self.clamp_scroll();
    }

    /// Swaps in new Markdown source, keeping the scroll position where possible.
    pub fn reload(&mut self, source: String, now: u64)
        ensures
            final(self).source == source,
            old(self).render_width matches Some(w) ==> rendered(*final(self), w),
            old(self).render_width is None ==> final(self).lines == old(self).lines
                && final(self).images == old(self).images && final(self).wanted == old(self).wanted,
            final(self).render_width == old(self).render_width,
            final(self).md_filepath == old(self).md_filepath,
            final(self).image_set == old(self).image_set,
            final(self).should_quit == old(self).should_quit,
            final(self).viewport_height == old(self).viewport_height,
            final(self).scroll == if old(self).scroll <= final(self).spec_max() { old(self).scroll as int } else { final(self).spec_max() },
            final(self).message matches Some(m) && m.text@ == "reloaded"@ && !m.is_error && m.shown_at == now,
    {
        self.source = source;
        if self.render_width.is_some() {
            self.rebuild();
        }
        self.clamp_scroll();
        self.notify("reloaded".to_string(), false, now);
    }

    /// Shows `text` in the status line from `now` on.
    pub fn notify(&mut self, text: String, is_error: bool, now: u64)
        ensures
            final(self).message matches Some(m) && m.text == text && m.is_error == is_error && m.shown_at == now,
            final(self).scroll == old(self).scroll,
            final(self).should_quit == old(self).should_quit,
            same_document(*old(self), *final(self)),
    {
        self.message = Some(Message { text, is_error, shown_at: now });
    }

    /// Records that image `d` was loaded and takes `height` rows; the next
    /// render draws it.
    pub fn image_loaded(&mut self, d: ImageDescriptor, height: u16)
        ensures
            set_of(*final(self)) == match set_of(*old(self)) {
                Some(v) => Some((v.0, v.1.push((desc_view(d), height)), v.2)),
                None => None,
            },
            final(self).should_quit == old(self).should_quit,
            final(self).md_filepath == old(self).md_filepath,
            final(self).source == old(self).source,
            final(self).lines == old(self).lines,
            final(self).images == old(self).images,
            final(self).wanted == old(self).wanted,
            final(self).scroll == old(self).scroll,
            final(self).viewport_height == old(self).viewport_height,
            final(self).render_width == old(self).render_width,
            final(self).message == old(self).message,
    {
        match self.image_set.take() {
            Some(mut s) => {
                s.add_loaded(d, height);
                self.image_set = Some(s);
            },
            None => {},
        }
    }

    /// Records that image `d` could not be loaded; the next render shows its
    /// alt text without asking for it again.
    pub fn image_failed(&mut self, d: ImageDescriptor)
        ensures
            set_of(*final(self)) == match set_of(*old(self)) {
                Some(v) => Some((v.0, v.1, v.2.push(desc_view(d)))),
                None => None,
            },
            final(self).should_quit == old(self).should_quit,
            final(self).md_filepath == old(self).md_filepath,
            final(self).source == old(self).source,
            final(self).lines == old(self).lines,
            final(self).images == old(self).images,
            final(self).wanted == old(self).wanted,
            final(self).scroll == old(self).scroll,
            final(self).viewport_height == old(self).viewport_height,
            final(self).render_width == old(self).render_width,
            final(self).message == old(self).message,
    {
        match self.image_set.take() {
            Some(mut s) => {
                s.add_failed(d);
                self.image_set = Some(s);
            },
            None => {},
        }
    }

    /// Hands over the images the last render asked for, leaving none.
    pub fn take_wanted(&mut self) -> (r: Vec<ImageDescriptor>)
        ensures
            r == old(self).wanted,
            final(self).wanted@.len() == 0,
            final(self).should_quit == old(self).should_quit,
            final(self).md_filepath == old(self).md_filepath,
            final(self).source == old(self).source,
            final(self).lines == old(self).lines,
            final(self).images == old(self).images,
            final(self).image_set == old(self).image_set,
            final(self).scroll == old(self).scroll,
            final(self).viewport_height == old(self).viewport_height,
            final(self).render_width == old(self).render_width,
            final(self).message == old(self).message,
    {
        let mut none: Vec<ImageDescriptor> = Vec::new();
        std::mem::swap(&mut none, &mut self.wanted);
        none
    }

    // --- scrolling ---------------------------------------------------------

    /// The furthest the view can scroll: the last row at the bottom of the view.
    pub fn max_scroll(&self) -> (r: usize)
        ensures
            r == self.spec_max(),
    {
        self.lines.len().saturating_sub(self.viewport_height)
    }

    /// The rows on screen.
    pub fn visible_lines(&self) -> (r: Vec<Line>)
        ensures
            lines_view(r@) == {
                let n = self.lines@.len() as int;
                let end = if self.scroll + self.viewport_height < n { self.scroll + self.viewport_height } else { n };
                let start = if self.scroll < end { self.scroll as int } else { end };
                lines_view(self.lines@).subrange(start, end)
            },
    {
        let end = if self.scroll.saturating_add(self.viewport_height) < self.lines.len() {
            self.scroll + self.viewport_height
        } else {
            self.lines.len()
        };
        let start = if self.scroll < end { self.scroll } else { end };
        let ghost lv = lines_view(self.lines@);
        let mut out: Vec<Line> = Vec::new();
        let mut i = start;
        while i < end
            invariant
                start <= i <= end <= self.lines@.len(),
                lv == lines_view(self.lines@),
                lines_view(out@) == lv.subrange(start as int, i as int),
            decreases end - i,
        {
            let spans = clone_spans(self.lines[i].spans.as_slice());
            let ghost o0 = lines_view(out@);
            out.push(Line::from_spans(spans));
            assert(lines_view(out@) =~= o0.push(lv[i as int]));
            i = i + 1;
            assert(lv.subrange(start as int, i as int) =~= lv.subrange(start as int, i - 1).push(lv[i - 1]));
        }
        out
    }

    /// The images at least partly on screen, each with its index in `images`
    /// and the view row it starts on: negative when its top has scrolled off.
    pub fn visible_images(&self) -> (r: Vec<(usize, i64)>)
        ensures
            r@.map_values(|p: (usize, i64)| (p.0 as int, p.1 as int)) == spec_visible_images(
                placed_views(self.images@),
                self.scroll as int,
                self.viewport_height as int,
            ),
    {
        let ghost pv = placed_views(self.images@);
        let top = self.scroll;
        let mut out: Vec<(usize, i64)> = Vec::new();
        let mut i: usize = 0;
        assert(pv.take(0) =~= Seq::<(int, ImageV)>::empty());
        while i < self.images.len()
            invariant
                i <= self.images@.len(),
                pv == placed_views(self.images@),
                top == self.scroll,
                out@.map_values(|p: (usize, i64)| (p.0 as int, p.1 as int)) == spec_visible_images(pv.take(i as int), top as int, self.viewport_height as int),
            decreases self.images@.len() - i,
        {
            let p = &self.images[i];
            let h = p.image.height as usize;
            assert(pv.take(i + 1).drop_last() =~= pv.take(i as int));
            let ghost o0 = out@.map_values(|p: (usize, i64)| (p.0 as int, p.1 as int));
            let below_top = p.row as u128 + h as u128 > top as u128;
            let above_bottom = (p.row as u128) < top as u128 + self.viewport_height as u128;
            assert(pv[i as int] == (p.row as int, image_view(p.image)));
            if below_top && above_bottom {
                let off: i64 = if p.row >= top {
                    let d = (p.row - top) as u64;
                    if d > 9223372036854775807u64 { i64::MAX } else { d as i64 }
                } else {
                    -((top - p.row) as i64)
                };
                assert(off as int == offset(p.row as int, top as int));
                out.push((i, off));
                assert(out@.map_values(|p: (usize, i64)| (p.0 as int, p.1 as int)) =~= o0.push((i as int, off as int)));
            }
            i = i + 1;
        }
        assert(pv.take(pv.len() as int) =~= pv);
        out
    }

    pub fn scroll_down(&mut self, n: usize)
        ensures
            final(self).scroll == spec_scroll_down(old(self).scroll as int, n as int, old(self).spec_max()),
            only_scroll_changed(*old(self), *final(self)),
    {
        self.scroll = self.scroll.saturating_add(n);
        self.clamp_scroll();
    }

    pub fn scroll_up(&mut self, n: usize)
        ensures
            final(self).scroll == spec_scroll_up(old(self).scroll as int, n as int),
            only_scroll_changed(*old(self), *final(self)),
    {
        self.scroll = self.scroll.saturating_sub(n);
    }

    pub fn page_down(&mut self)
        ensures
            final(self).scroll == spec_scroll_down(old(self).scroll as int, page_step(old(self).viewport_height as int), old(self).spec_max()),
            only_scroll_changed(*old(self), *final(self)),
    {
        let step = if self.viewport_height > 1 { self.viewport_height - 1 } else { 1 };
        self.scroll_down(step);
    }

    pub fn page_up(&mut self)
        ensures
            final(self).scroll == spec_scroll_up(old(self).scroll as int, page_step(old(self).viewport_height as int)),
            only_scroll_changed(*old(self), *final(self)),
    {
        let step = if self.viewport_height > 1 { self.viewport_height - 1 } else { 1 };
        self.scroll_up(step);
    }

    pub fn half_page_down(&mut self)
        ensures
            final(self).scroll == spec_scroll_down(old(self).scroll as int, half_page_step(old(self).viewport_height as int), old(self).spec_max()),
            only_scroll_changed(*old(self), *final(self)),
    {
        let step = if self.viewport_height / 2 > 1 { self.viewport_height / 2 } else { 1 };
        self.scroll_down(step);
    }

    pub fn half_page_up(&mut self)
        ensures
            final(self).scroll == spec_scroll_up(old(self).scroll as int, half_page_step(old(self).viewport_height as int)),
            only_scroll_changed(*old(self), *final(self)),
    {
        let step = if self.viewport_height / 2 > 1 { self.viewport_height / 2 } else { 1 };
        self.scroll_up(step);
    }

    pub fn top(&mut self)
        ensures
            final(self).scroll == 0,
            only_scroll_changed(*old(self), *final(self)),
    {
        self.scroll = 0;
    }

    pub fn bottom(&mut self)
        ensures
            final(self).scroll == old(self).spec_max(),
            only_scroll_changed(*old(self), *final(self)),
    {
        self.scroll = self.max_scroll();
    }

    fn clamp_scroll(&mut self)
        ensures
            final(self).scroll == if old(self).scroll <= old(self).spec_max() { old(self).scroll as int } else { old(self).spec_max() },
            only_scroll_changed(*old(self), *final(self)),
    {
        let m = self.max_scroll();
        if self.scroll > m {
            self.scroll = m;
        }
    }
}

// --- laws of the view ------------------------------------------------------------------

/// The images listed as visible are exactly those with a row on screen: an
/// image of `h` rows at `row` is listed when `row < top + height` and
/// `row + h > top`, clipped at either edge or not. Each is listed once, in
/// document order, with the view row it starts on.
pub proof fn lemma_visible_images_exact(imgs: Seq<(int, ImageV)>, top: int, height: int)
    ensures
        ({
            let vis = spec_visible_images(imgs, top, height);
            &&& forall|j: int| 0 <= j < vis.len() ==> 0 <= (#[trigger] vis[j]).0 < imgs.len()
                && vis[j].1 == (if imgs[vis[j].0].0 - top > i64::MAX { i64::MAX as int } else { imgs[vis[j].0].0 - top })
            &&& forall|j1: int, j2: int| 0 <= j1 < j2 < vis.len() ==> (#[trigger] vis[j1]).0 < (#[trigger] vis[j2]).0
            &&& forall|k: int| 0 <= k < imgs.len() ==> (
                (exists|j: int| 0 <= j < vis.len() && (#[trigger] vis[j]).0 == k)
                    <==> ((#[trigger] imgs[k]).0 < top + height && imgs[k].0 + imgs[k].1.1 > top))
        }),
    decreases imgs.len(),
{
    let vis = spec_visible_images(imgs, top, height);
    if imgs.len() > 0 {
        let init = imgs.drop_last();
        lemma_visible_images_exact(init, top, height);
        let rest = spec_visible_images(init, top, height);
        let n = imgs.len() - 1;
        let p = imgs.last();
        assert forall|j: int| 0 <= j < rest.len() implies (#[trigger] rest[j]).0 < n by {}
        assert forall|k: int| 0 <= k < imgs.len() implies (
            (exists|j: int| 0 <= j < vis.len() && (#[trigger] vis[j]).0 == k)
                <==> ((#[trigger] imgs[k]).0 < top + height && imgs[k].0 + imgs[k].1.1 > top)) by {
            if k < n {
                assert(imgs[k] == init[k]);
                if exists|j: int| 0 <= j < vis.len() && (#[trigger] vis[j]).0 == k {
                    let j = choose|j: int| 0 <= j < vis.len() && (#[trigger] vis[j]).0 == k;
                    if j < rest.len() {
                        assert(vis[j] == rest[j]);
                    }
                }
                if exists|j: int| 0 <= j < rest.len() && (#[trigger] rest[j]).0 == k {
                    let j = choose|j: int| 0 <= j < rest.len() && (#[trigger] rest[j]).0 == k;
                    assert(vis[j] == rest[j]);
                }
            } else {
                if exists|j: int| 0 <= j < vis.len() && (#[trigger] vis[j]).0 == k {
                    let j = choose|j: int| 0 <= j < vis.len() && (#[trigger] vis[j]).0 == k;
                    if j < rest.len() {
                        assert(vis[j] == rest[j]);
                    }
                }
                if shows(p.0, p.1.1 as int, top, height) {
                    assert(vis[rest.len() as int].0 == k);
                }
            }
        }
        assert forall|j: int| 0 <= j < vis.len() implies 0 <= (#[trigger] vis[j]).0 < imgs.len()
            && vis[j].1 == (if imgs[vis[j].0].0 - top > i64::MAX { i64::MAX as int } else { imgs[vis[j].0].0 - top }) by {
            if j < rest.len() {
                assert(vis[j] == rest[j]);
                assert(imgs[rest[j].0] == init[rest[j].0]);
            }
        }
        assert forall|j1: int, j2: int| 0 <= j1 < j2 < vis.len() implies (#[trigger] vis[j1]).0 < (#[trigger] vis[j2]).0 by {
            assert(vis[j1] == rest[j1]);
            if j2 < rest.len() {
                assert(vis[j2] == rest[j2]);
            }
        }
    }
}


/// Scrolling never leaves the document: moving down stops at the last
/// screenful, and moving up from within it stays within it.
pub proof fn lemma_scroll_stays_in_range(scroll: int, n: int, max: int)
    requires
        0 <= scroll <= max <= usize::MAX,
        0 <= n,
    ensures
        0 <= spec_scroll_down(scroll, n, max) <= max,
        0 <= spec_scroll_up(scroll, n) <= max,
{
}

/// Scrolling down `n` rows and back up `n` rows returns to where the view
/// was, unless the way down hit the end.
pub proof fn lemma_scroll_round_trip(scroll: int, n: int, max: int)
    requires
        0 <= scroll,
        0 <= n,
        scroll + n <= max <= usize::MAX,
    ensures
        spec_scroll_up(spec_scroll_down(scroll, n, max), n) == scroll,
{
}

/// Paging keeps one row of context: in a view of two rows or more, the last
/// row on screen before a page down is still on screen after it; and a page
/// down always moves when it can.
pub proof fn lemma_page_down_keeps_context(scroll: int, height: int, max: int)
    requires
        0 <= scroll <= max <= usize::MAX,
        2 <= height,
    ensures
        spec_scroll_down(scroll, page_step(height), max) <= scroll + height - 1,
        scroll < max ==> spec_scroll_down(scroll, page_step(height), max) > scroll,
{
}

/// Anywhere the view can scroll to, it is full: it shows a whole screenful,
/// or the whole document if that is shorter.
pub proof fn lemma_view_is_full(rows: int, height: int, scroll: int)
    requires
        0 <= rows,
        0 <= height,
        0 <= scroll <= spec_max_scroll(rows, height),
    ensures
        (if scroll + height < rows { scroll + height } else { rows }) - scroll
            == if height < rows { height } else { rows },
{
}

/// An image takes blank placeholder rows: each placed image starts on a row
/// of the laid-out document, and every row it covers is blank.
pub proof fn lemma_images_reserve_their_rows(es: Seq<ElementView>)
    ensures
        forall|k: int| 0 <= k < spec_place(es).1.len() ==> {
            let (row, img) = #[trigger] spec_place(es).1[k];
            &&& 0 <= row
            &&& row + img.1 <= spec_place(es).0.len()
            &&& forall|j: int| row <= j < row + img.1 ==> spec_place(es).0[j].len() == 0
        },
    decreases es.len(),
{
    if es.len() > 0 {
        lemma_images_reserve_their_rows(es.drop_last());
        let (rows, imgs) = spec_place(es.drop_last());
        match es.last() {
            ElementView::Lines(ls) => {
                assert forall|k: int| 0 <= k < spec_place(es).1.len() implies {
                    let (row, img) = #[trigger] spec_place(es).1[k];
                    &&& 0 <= row
                    &&& row + img.1 <= spec_place(es).0.len()
                    &&& forall|j: int| row <= j < row + img.1 ==> spec_place(es).0[j].len() == 0
                } by {
                    let (row, img) = imgs[k];
                    assert forall|j: int| row <= j < row + img.1 implies spec_place(es).0[j].len() == 0 by {
                        assert(spec_place(es).0[j] == rows[j]);
                    }
                }
            },
            ElementView::Image(im) => {
                assert forall|k: int| 0 <= k < spec_place(es).1.len() implies {
                    let (row, img) = #[trigger] spec_place(es).1[k];
                    &&& 0 <= row
                    &&& row + img.1 <= spec_place(es).0.len()
                    &&& forall|j: int| row <= j < row + img.1 ==> spec_place(es).0[j].len() == 0
                } by {
                    if k < imgs.len() {
                        let (row, img) = imgs[k];
                        assert forall|j: int| row <= j < row + img.1 implies spec_place(es).0[j].len() == 0 by {
                            assert(spec_place(es).0[j] == rows[j]);
                        }
                    } else {
                        let row = rows.len() as int;
                        assert forall|j: int| row <= j < row + im.1 implies spec_place(es).0[j].len() == 0 by {
                            assert(spec_place(es).0[j] == blank_rows(im.1 as nat)[j - row]);
                        }
                    }
                }
            },
        }
    }
}

} // verus!
