//! Where the images a document names are, and what to load for them.
//!
//! `ImageResolver` knows where the document is, and turns a Markdown url into
//! an `ImageDescriptor` naming a file that could be read. Decoding that file,
//! and sizing it to the terminal's cells, is I/O and is left to the program
//! around the library: it hands back the images it loaded as an `ImageSet`.

use vstd::prelude::*;

use crate::text::{chars_of, contains_at, has_infix};

verus! {

/// Where an image comes from: a local path, or a remote url.
#[derive(Debug, PartialEq, Eq)]
pub enum ImageKey {
    Path(String),
    Url(String),
}

/// An image reference resolved to something loadable, and the width it should
/// be sized for. Doubles as the cache key: the same file at a different width
/// is a different image.
#[derive(Debug, PartialEq, Eq)]
pub struct ImageDescriptor {
    pub key: ImageKey,
    pub width: usize,
    /// Shown instead of the picture if it turns out not to be loadable.
    pub alt: String,
}

/// A key's view: whether it is a path, and its text.
pub open spec fn key_view(k: ImageKey) -> (bool, Seq<char>) {
    match k {
        ImageKey::Path(p) => (true, p@),
        ImageKey::Url(u) => (false, u@),
    }
}

/// A descriptor's view: its key, width and alt text.
pub open spec fn desc_view(d: ImageDescriptor) -> ((bool, Seq<char>), usize, Seq<char>) {
    (key_view(d.key), d.width, d.alt@)
}

impl ImageDescriptor {
    /// A copy of this descriptor.
    pub fn copy(&self) -> (r: ImageDescriptor)
        ensures
            desc_view(r) == desc_view(*self),
    {
        let key = match &self.key {
            ImageKey::Path(p) => ImageKey::Path(p.clone()),
            ImageKey::Url(u) => ImageKey::Url(u.clone()),
        };
        ImageDescriptor { key, width: self.width, alt: self.alt.clone() }
    }

    /// Whether this descriptor and `other` name the same image at the same width.
    pub fn same_as(&self, other: &ImageDescriptor) -> (r: bool)
        ensures
            r == (desc_view(*self) == desc_view(*other)),
    {
        let keys = match (&self.key, &other.key) {
            (ImageKey::Path(a), ImageKey::Path(b)) => *a == *b,
            (ImageKey::Url(a), ImageKey::Url(b)) => *a == *b,
            _ => false,
        };
        keys && self.width == other.width && self.alt == other.alt
    }
}

/// The directory part of a path, as `Path::parent` gives it.
pub uninterp spec fn path_parent(p: Seq<char>) -> Option<Seq<char>>;

/// `rest` joined onto `base`, as `Path::join` does it.
pub uninterp spec fn path_join(base: Seq<char>, rest: Seq<char>) -> Seq<char>;

/// A string's view, inside an `Option`.
pub open spec fn opt_view(o: Option<String>) -> Option<Seq<char>> {
    match o {
        Some(s) => Some(s@),
        None => None,
    }
}

/// `Path::parent` of std, on a path given as text. Its result depends on the
/// path alone, under the path rules of the platform the program is built for.
#[verifier::external_body]
fn parent_of(p: &str) -> (r: Option<String>)
    ensures
        opt_view(r) == path_parent(p@),
{
    std::path::Path::new(p).parent().map(|d| d.to_string_lossy().into_owned())
}

/// `Path::join` of std, on paths given as text. Its result depends on the two
/// paths alone, under the path rules of the platform the program is built for.
#[verifier::external_body]
pub(crate) fn join_paths(base: &str, rest: &str) -> (r: String)
    ensures
        r@ == path_join(base@, rest@),
{
    std::path::Path::new(base).join(rest).to_string_lossy().into_owned()
}

/// `Path::is_file` of std: whether a regular file is at the path now. The
/// answer depends on the file system, so nothing is stated of it.
#[verifier::external_body]
fn is_file(p: &str) -> (r: bool) {
    std::path::Path::new(p).is_file()
}

/// Whether a url points elsewhere (`scheme://...`) rather than at a file.
pub open spec fn is_remote(url: Seq<char>) -> bool {
    exists|i: int| contains_at(url, "://"@, i)
}

/// Turns the urls in a document into files that could be loaded. Needs no
/// terminal: this is path logic against the directory the Markdown file is in.
#[derive(Debug)]
pub struct ImageResolver {
    /// Image paths in Markdown are relative to the file, not the working directory.
    pub base_dir: String,
}

/// Where `url` would be, for a document in `base_dir`; `None` for a remote url.
pub open spec fn spec_locate(base_dir: Seq<char>, url: Seq<char>, width: usize, alt: Seq<char>)
    -> Option<((bool, Seq<char>), usize, Seq<char>)>
{
    if is_remote(url) {
        None
    } else {
        Some(((true, path_join(base_dir, url)), width, alt))
    }
}

impl ImageResolver {
    /// A resolver for the document at `md_path`: relative urls are taken from
    /// its directory.
    pub fn new(md_path: &str) -> (r: ImageResolver)
        ensures
            r.base_dir@ == match path_parent(md_path@) {
                Some(d) => d,
                None => Seq::<char>::empty(),
            },
    {
        match parent_of(md_path) {
            Some(d) => ImageResolver { base_dir: d },
            None => ImageResolver { base_dir: String::new() },
        }
    }

    /// Where `url` would be, without looking: `None` for a remote url.
    pub fn locate(&self, url: &str, width: usize, alt: &str) -> (r: Option<ImageDescriptor>)
        ensures
            match r {
                Some(d) => spec_locate(self.base_dir@, url@, width, alt@) == Some(desc_view(d)),
                None => spec_locate(self.base_dir@, url@, width, alt@) is None,
            },
    {
        let u = chars_of(url);
        let sep = chars_of("://");
        if has_infix(&u, &sep) {
            return None;
        }
        let path = join_paths(self.base_dir.as_str(), url);
        Some(ImageDescriptor { key: ImageKey::Path(path), width, alt: alt.to_owned() })
    }

    /// Points `url` at a file that could be loaded, or `None` (remote, or not
    /// there), in which case the caller shows the alt text instead. A local
    /// url is located (`locate`) and the file system asked whether a file is
    /// there; `pick` turns the answer into the result.
    pub fn resolve(&self, url: &str, width: usize, alt: &str) -> (r: Option<ImageDescriptor>)
        ensures
            r matches Some(d) ==> spec_locate(self.base_dir@, url@, width, alt@) == Some(desc_view(d)),
            is_remote(url@) ==> r is None,
    {
        let d = self.locate(url, width, alt)?;
        let exists = match &d.key {
            ImageKey::Path(p) => is_file(p.as_str()),
            ImageKey::Url(_) => false,
        };
        pick(d, exists)
    }
}

/// What `resolve` answers for the located image `d`, once the file system
/// has said whether a file is there: `d` if it is, else nothing.
pub fn pick(d: ImageDescriptor, exists: bool) -> (r: Option<ImageDescriptor>)
    ensures
        exists ==> r == Some(d),
        !exists ==> r is None,
{
    if exists {
        Some(d)
    } else {
        None
    }
}

/// A loaded image: what was loaded, and how many terminal rows it takes.
/// The pixels themselves stay with the program that loaded them.
#[derive(Debug)]
pub struct Image {
    pub desc: ImageDescriptor,
    /// Height in terminal cells.
    pub height: u16,
}

/// A descriptor's view.
pub type DescV = ((bool, Seq<char>), usize, Seq<char>);

/// An image's view: its descriptor and height.
pub type ImageV = (DescV, u16);

/// The view of a loaded image.
pub open spec fn image_view(i: Image) -> ImageV {
    (desc_view(i.desc), i.height)
}

/// The images a document may draw: where its urls lead, which images were
/// loaded (at which width, and the rows each takes), and which could not be.
pub struct ImageSet {
    pub resolver: ImageResolver,
    pub loaded: Vec<Image>,
    /// Images that were tried and could not be loaded.
    pub failed: Vec<ImageDescriptor>,
}

/// An image set's view: the resolver's directory, the loaded images and the
/// failed ones.
pub type SetV = (Seq<char>, Seq<ImageV>, Seq<DescV>);

/// The view of an image set.
pub open spec fn set_view(s: ImageSet) -> SetV {
    (
        s.resolver.base_dir@,
        s.loaded@.map_values(|i: Image| image_view(i)),
        s.failed@.map_values(|d: ImageDescriptor| desc_view(d)),
    )
}

/// The height of the first of `loaded` that is `d`; `None` if none is.
pub open spec fn loaded_height(loaded: Seq<ImageV>, d: DescV) -> Option<u16>
    decreases loaded.len(),
{
    if loaded.len() == 0 {
        None
    } else {
        match loaded_height(loaded.drop_last(), d) {
            Some(h) => Some(h),
            None => if loaded.last().0 == d { Some(loaded.last().1) } else { None },
        }
    }
}

impl ImageSet {
    /// A set with nothing loaded yet.
    pub fn new(resolver: ImageResolver) -> (r: ImageSet)
        ensures
            set_view(r) == (resolver.base_dir@, Seq::<ImageV>::empty(), Seq::<DescV>::empty()),
    {
        let r = ImageSet { resolver, loaded: Vec::new(), failed: Vec::new() };
        assert(set_view(r).1 =~= Seq::<ImageV>::empty());
        assert(set_view(r).2 =~= Seq::<DescV>::empty());
        r
    }

    /// How many rows `d` takes, if it was loaded.
    pub fn height_of(&self, d: &ImageDescriptor) -> (r: Option<u16>)
        ensures
            r == loaded_height(set_view(*self).1, desc_view(*d)),
    {
        let ghost lv = set_view(*self).1;
        let mut i: usize = 0;
        assert(lv.take(0) =~= Seq::<ImageV>::empty());
        while i < self.loaded.len()
            invariant
                i <= self.loaded@.len(),
                lv == set_view(*self).1,
                loaded_height(lv.take(i as int), desc_view(*d)) is None,
            decreases self.loaded@.len() - i,
        {
            assert(lv.take(i + 1).drop_last() =~= lv.take(i as int));
            if self.loaded[i].desc.same_as(d) {
                assert(loaded_height(lv.take(i + 1), desc_view(*d)) == Some(self.loaded@[i as int].height));
                proof { lemma_loaded_height_prefix(lv, i + 1, desc_view(*d)); }
                return Some(self.loaded[i].height);
            }
            i = i + 1;
        }
        assert(lv.take(lv.len() as int) =~= lv);
        None
    }

    /// Whether `d` was tried and could not be loaded.
    pub fn has_failed(&self, d: &ImageDescriptor) -> (r: bool)
        ensures
            r == set_view(*self).2.contains(desc_view(*d)),
    {
        let ghost fv = set_view(*self).2;
        let mut i: usize = 0;
        while i < self.failed.len()
            invariant
                i <= self.failed@.len(),
                fv == set_view(*self).2,
                forall|k: int| 0 <= k < i ==> fv[k] != desc_view(*d),
            decreases self.failed@.len() - i,
        {
            if self.failed[i].same_as(d) {
                assert(fv[i as int] == desc_view(*d));
                return true;
            }
            i = i + 1;
        }
        false
    }

    /// Records that `d` was loaded and takes `height` rows.
    pub fn add_loaded(&mut self, d: ImageDescriptor, height: u16)
        ensures
            set_view(*final(self)) == (set_view(*old(self)).0, set_view(*old(self)).1.push((desc_view(d), height)), set_view(*old(self)).2),
    {
        let ghost v0 = set_view(*self);
        self.loaded.push(Image { desc: d, height });
        assert(set_view(*self).1 =~= v0.1.push((desc_view(d), height)));
        assert(set_view(*self).2 =~= v0.2);
    }

    /// Records that `d` could not be loaded.
    pub fn add_failed(&mut self, d: ImageDescriptor)
        ensures
            set_view(*final(self)) == (set_view(*old(self)).0, set_view(*old(self)).1, set_view(*old(self)).2.push(desc_view(d))),
    {
        let ghost v0 = set_view(*self);
        self.failed.push(d);
        assert(set_view(*self).1 =~= v0.1);
        assert(set_view(*self).2 =~= v0.2.push(desc_view(d)));
    }
}

/// Once a prefix of `loaded` holds `d`, the whole of it gives the same height.
pub proof fn lemma_loaded_height_prefix(loaded: Seq<ImageV>, k: int, d: DescV)
    requires
        0 <= k <= loaded.len(),
        loaded_height(loaded.take(k), d) is Some,
    ensures
        loaded_height(loaded, d) == loaded_height(loaded.take(k), d),
    decreases loaded.len() - k,
{
    if k < loaded.len() {
        assert(loaded.take(k + 1).drop_last() =~= loaded.take(k));
        lemma_loaded_height_prefix(loaded, k + 1, d);
    } else {
        assert(loaded.take(k) =~= loaded);
    }
}

} // verus!
