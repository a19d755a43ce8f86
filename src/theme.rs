//! The shape cache of a theme, the scan of one icon directory into it, and
//! the resolution of a theme name across search roots and inherited themes.

use vstd::prelude::*;
use crate::index::{inherits_of, theme_inherits};
use crate::paths::{join, join_path, string_views};
use crate::text::chars_of;

verus! {

/// The two on-disk representations of a cursor icon.
#[derive(Debug, PartialEq, Eq, Structural, Clone, Copy)]
pub enum Format {
    /// A directory of SVG frames and their metadata.
    Svg,
    /// A legacy file holding bitmaps at one or more sizes.
    X,
}

/// A cursor icon.
#[derive(Debug)]
pub enum Cursor {
    /// An SVG cursor icon.
    Svg {
        /// The path of the icon's directory.
        path: String,
    },
    /// A legacy cursor icon.
    X {
        /// The path of the icon's file.
        path: String,
    },
}

impl Cursor {
    /// The icon's format and path.
    pub open spec fn model(&self) -> (Format, Seq<char>) {
        match self {
            Cursor::Svg { path } => (Format::Svg, path@),
            Cursor::X { path } => (Format::X, path@),
        }
    }

    /// An icon of format `fmt` at `path`.
    fn of_format(fmt: Format, path: String) -> (r: Cursor)
        ensures
            r.model() == (fmt, path@),
    {
        match fmt {
            Format::Svg => Cursor::Svg { path },
            Format::X => Cursor::X { path },
        }
    }
}

/// What the shape cache holds: each shape name's index into the icons, and the
/// icons as format and path.
pub struct Cache {
    pub shapes: Map<Seq<char>, nat>,
    pub icons: Seq<(Format, Seq<char>)>,
}

/// The cache before anything was found.
pub open spec fn empty_cache() -> Cache {
    Cache { shapes: Map::empty(), icons: Seq::empty() }
}

/// The map from shape names to icon indices that parallel `names` and `slots` give.
pub open spec fn shape_map(names: Seq<String>, slots: Seq<usize>) -> Map<Seq<char>, nat>
    decreases names.len(),
{
    if names.len() == 0 {
        Map::empty()
    } else {
        shape_map(names.drop_last(), slots.drop_last()).insert(
            names.last()@,
            slots[names.len() - 1] as nat,
        )
    }
}

/// No two of `names` are equal as text.
pub open spec fn distinct_names(names: Seq<String>) -> bool {
    forall|i: int, j: int| 0 <= i < names.len() && 0 <= j < names.len() && i != j ==> names[i]@ != names[j]@
}

/// With distinct names, a name has a shape exactly when it is one of `names`,
/// and its icon is the slot beside it.
proof fn lemma_shape_map(names: Seq<String>, slots: Seq<usize>)
    requires
        names.len() == slots.len(),
        distinct_names(names),
    ensures
        forall|k: Seq<char>|
            shape_map(names, slots).contains_key(k) <==> exists|i: int|
                0 <= i < names.len() && (#[trigger] names[i])@ == k,
        forall|i: int|
            0 <= i < names.len() ==> shape_map(names, slots)[(#[trigger] names[i])@] == slots[i] as nat,
    decreases names.len(),
{
    if names.len() > 0 {
        let n = names.drop_last();
        let s = slots.drop_last();
        assert(distinct_names(n)) by {
            assert forall|i: int, j: int| 0 <= i < n.len() && 0 <= j < n.len() && i != j implies n[i]@
                != n[j]@ by {
                assert(n[i] == names[i] && n[j] == names[j]);
            }
        }
        lemma_shape_map(n, s);
        let m = shape_map(names, slots);
        assert forall|k: Seq<char>| m.contains_key(k) implies exists|i: int|
            0 <= i < names.len() && (#[trigger] names[i])@ == k by {
            assert(m == shape_map(n, s).insert(names.last()@, slots[names.len() - 1] as nat));
            if k != names.last()@ {
                assert(shape_map(n, s).contains_key(k));
                let i = choose|i: int| 0 <= i < n.len() && (#[trigger] n[i])@ == k;
                assert(names[i] == n[i]);
            } else {
                assert(names[names.len() - 1]@ == k);
            }
        }
        assert forall|k: Seq<char>|
            (exists|i: int| 0 <= i < names.len() && (#[trigger] names[i])@ == k) implies m.contains_key(
            k,
        ) by {
            let i = choose|i: int| 0 <= i < names.len() && (#[trigger] names[i])@ == k;
            if i < names.len() - 1 {
                assert(names[i] == n[i]);
            }
        }
        assert forall|i: int| 0 <= i < names.len() implies m[(#[trigger] names[i])@] == slots[i] as nat by {
            if i < names.len() - 1 {
                assert(names[i] == n[i]);
                assert(slots[i] == s[i]);
                assert(names[i]@ != names.last()@);
            }
        }
    }
}

/// What a directory entry is.
pub enum EntryKind {
    /// A file or directory that is not a symbolic link.
    Plain,
    /// A symbolic link, with the canonical path it resolves to, if it resolves.
    Link { target: Option<String> },
}

/// One entry of an icon directory.
pub struct DirEntry {
    /// The entry's file name: the shape name.
    pub name: String,
    pub kind: EntryKind,
}

/// The entries of one icon directory.
pub struct Listing {
    /// The directory's path.
    pub path: String,
    /// Its entries; empty where it could not be read.
    pub entries: Vec<DirEntry>,
}

/// What one search root holds for a theme name, where it holds a directory.
pub struct ThemeDir {
    /// The entries of its SVG icon directory, where there is one.
    pub scalable: Option<Listing>,
    /// The entries of its legacy icon directory, where there is one.
    pub legacy: Option<Listing>,
    /// The text of its index file, where it could be read.
    pub index: Option<String>,
}

/// The position of the last `/` in `t`, or -1.
pub open spec fn last_slash(t: Seq<char>) -> int
    decreases t.len(),
{
    if t.len() == 0 {
        -1
    } else if t.last() == '/' {
        t.len() - 1
    } else {
        last_slash(t.drop_last())
    }
}

/// The parent directory and file name of the canonical path `t`; nothing where
/// it has no file name.
pub open spec fn target_parts(t: Seq<char>) -> Option<(Seq<char>, Seq<char>)> {
    let k = last_slash(t);
    if k < 0 || k == t.len() - 1 {
        None
    } else if k == 0 {
        Some((seq!['/'], t.subrange(1, t.len() as int)))
    } else {
        Some((t.subrange(0, k), t.subrange(k + 1, t.len() as int)))
    }
}

/// Splits a canonical path into its parent directory and file name.
fn split_target(t: &str) -> (r: Option<(String, String)>)
    ensures
        match r {
            Some((p, n)) => target_parts(t@) == Some((p@, n@)),
            None => target_parts(t@) is None,
        },
{
    let cs = chars_of(t);
    let mut k: usize = 0;
    let mut found = false;
    let mut i: usize = 0;
    while i < cs.len()
        invariant
            i <= cs@.len(),
            cs@ == t@,
            found ==> k < i && last_slash(cs@.subrange(0, i as int)) == k,
            !found ==> last_slash(cs@.subrange(0, i as int)) == -1,
        decreases cs@.len() - i,
    {
        assert(cs@.subrange(0, i + 1).drop_last() =~= cs@.subrange(0, i as int));
        if cs[i] == '/' {
            k = i;
            found = true;
        }
        i += 1;
    }
    assert(cs@.subrange(0, cs@.len() as int) =~= cs@);
    if !found || k == cs.len() - 1 {
        return None;
    }
    let mut name: Vec<char> = Vec::new();
    let mut j: usize = k + 1;
    while j < cs.len()
        invariant
            k < j <= cs@.len(),
            name@ == cs@.subrange(k + 1, j as int),
        decreases cs@.len() - j,
    {
        name.push(cs[j]);
        j += 1;
        assert(name@ =~= cs@.subrange(k + 1, j as int));
    }
    let mut parent: Vec<char> = Vec::new();
    if k == 0 {
        parent.push('/');
        assert(parent@ =~= seq!['/']);
    } else {
        let mut j: usize = 0;
        while j < k
            invariant
                j <= k < cs@.len(),
                parent@ == cs@.subrange(0, j as int),
            decreases k - j,
        {
            parent.push(cs[j]);
            j += 1;
            assert(parent@ =~= cs@.subrange(0, j as int));
        }
    }
    Some((crate::text::string_of(&parent), crate::text::string_of(&name)))
}

/// The cache after meeting the entry `e` of the directory `dir`, whose icons
/// are of format `fmt`. A name already present keeps its icon. A plain entry
/// adds an icon at its path. A link that resolves into `dir` itself, to a name
/// already present, shares that name's icon; any other link adds nothing.
pub open spec fn place(c: Cache, dir: Seq<char>, fmt: Format, e: DirEntry) -> Cache {
    let name = e.name@;
    if c.shapes.contains_key(name) {
        c
    } else {
        match e.kind {
            EntryKind::Plain => Cache {
                shapes: c.shapes.insert(name, c.icons.len()),
                icons: c.icons.push((fmt, join(dir, name))),
            },
            EntryKind::Link { target } => match target {
                Some(t) => match target_parts(t@) {
                    Some((parent, file)) => if parent == dir && c.shapes.contains_key(file) {
                        Cache { shapes: c.shapes.insert(name, c.shapes[file]), icons: c.icons }
                    } else {
                        c
                    },
                    None => c,
                },
                None => c,
            },
        }
    }
}

/// The cache after meeting, in order, the entries of `es` that are links
/// (`links`) or that are not (`!links`).
pub open spec fn scan_pass(c: Cache, dir: Seq<char>, fmt: Format, es: Seq<DirEntry>, links: bool) -> Cache
    decreases es.len(),
{
    if es.len() == 0 {
        c
    } else {
        let prev = scan_pass(c, dir, fmt, es.drop_last(), links);
        if (es.last().kind is Link) == links {
            place(prev, dir, fmt, es.last())
        } else {
            prev
        }
    }
}

/// The cache after scanning the directory `l`: plain entries first, then links,
/// so that a link's target in the same directory is present when it is met.
pub open spec fn scan_listing(c: Cache, l: Listing, fmt: Format) -> Cache {
    let dir = l.path@;
    scan_pass(scan_pass(c, dir, fmt, l.entries@, false), dir, fmt, l.entries@, true)
}

/// A cursor theme: the icons found for each shape name. Several names may
/// share one icon.
#[derive(Debug)]
pub struct CursorTheme {
    names: Vec<String>,
    slots: Vec<usize>,
    cursors: Vec<Cursor>,
}

impl CursorTheme {
    /// The names are distinct and each one's icon exists.
    pub closed spec fn wf(&self) -> bool {
        &&& self.names@.len() == self.slots@.len()
        &&& distinct_names(self.names@)
        &&& forall|i: int| 0 <= i < self.slots@.len() ==> self.slots@[i] < self.cursors@.len()
    }

    /// What the theme holds.
    pub closed spec fn cache(&self) -> Cache {
        Cache {
            shapes: shape_map(self.names@, self.slots@),
            icons: self.cursors@.map_values(|c: Cursor| c.model()),
        }
    }

    /// The shapes are the names, each with its slot, and every slot is an icon.
    proof fn lemma_cache(&self)
        requires
            self.wf(),
        ensures
            forall|k: Seq<char>|
                self.cache().shapes.contains_key(k) <==> exists|i: int|
                    0 <= i < self.names@.len() && (#[trigger] self.names@[i])@ == k,
            forall|i: int|
                0 <= i < self.names@.len() ==> self.cache().shapes[(#[trigger] self.names@[i])@]
                    == self.slots@[i] as nat,
            forall|k: Seq<char>|
                self.cache().shapes.contains_key(k) ==> #[trigger] self.cache().shapes[k]
                    < self.cache().icons.len(),
    {
        lemma_shape_map(self.names@, self.slots@);
        assert forall|k: Seq<char>| self.cache().shapes.contains_key(k) implies #[trigger] self.cache().shapes[k]
            < self.cache().icons.len() by {
            let i = choose|i: int| 0 <= i < self.names@.len() && (#[trigger] self.names@[i])@ == k;
        }
    }

    fn new() -> (r: CursorTheme)
        ensures
            r.wf(),
            r.cache() == empty_cache(),
    {
        let r = CursorTheme { names: Vec::new(), slots: Vec::new(), cursors: Vec::new() };
        assert(r.cache().icons =~= Seq::<(Format, Seq<char>)>::empty());
        r
    }

    /// The position of `name` among the names, if it is one of them.
    fn find(&self, name: &String) -> (r: Option<usize>)
        requires
            self.wf(),
        ensures
            match r {
                Some(i) => i < self.names@.len() && self.names@[i as int]@ == name@,
                None => !self.cache().shapes.contains_key(name@),
            },
    {
        proof {
            self.lemma_cache();
        }
        let mut i: usize = 0;
        while i < self.names.len()
            invariant
                i <= self.names@.len(),
                forall|j: int| 0 <= j < i ==> (#[trigger] self.names@[j])@ != name@,
            decreases self.names@.len() - i,
        {
            if self.names[i] == *name {
                return Some(i);
            }
            i += 1;
        }
        None
    }

    /// The icon of `name`, shared with its slot.
    fn slot_of(&self, name: &String) -> (r: Option<usize>)
        requires
            self.wf(),
        ensures
            match r {
                Some(s) => self.cache().shapes.contains_key(name@) && s as nat == self.cache().shapes[name@]
                    && s < self.cursors@.len(),
                None => !self.cache().shapes.contains_key(name@),
            },
    {
        proof {
            self.lemma_cache();
        }
        match self.find(name) {
            Some(i) => Some(self.slots[i]),
            None => None,
        }
    }

    /// Maps the new name `name` to the existing icon `slot`.
    fn add_alias(&mut self, name: String, slot: usize)
        requires
            old(self).wf(),
            !old(self).cache().shapes.contains_key(name@),
            slot < old(self).cursors@.len(),
        ensures
            final(self).wf(),
            final(self).cache() == (Cache {
                shapes: old(self).cache().shapes.insert(name@, slot as nat),
                icons: old(self).cache().icons,
            }),
    {
        proof {
            old(self).lemma_cache();
        }
        let ghost n0 = self.names@;
        let ghost s0 = self.slots@;
        self.names.push(name);
        self.slots.push(slot);
        assert(self.names@.drop_last() =~= n0);
        assert(self.slots@.drop_last() =~= s0);
        assert(distinct_names(self.names@)) by {
            assert forall|i: int, j: int|
                0 <= i < self.names@.len() && 0 <= j < self.names@.len() && i != j implies self.names@[i]@
                != self.names@[j]@ by {
                if i < n0.len() {
                    assert(self.names@[i] == n0[i]);
                }
                if j < n0.len() {
                    assert(self.names@[j] == n0[j]);
                }
            }
        }
    }

    /// Maps the new name `name` to a new icon `cursor`.
    fn add_icon(&mut self, name: String, cursor: Cursor)
        requires
            old(self).wf(),
            !old(self).cache().shapes.contains_key(name@),
        ensures
            final(self).wf(),
            final(self).cache() == (Cache {
                shapes: old(self).cache().shapes.insert(name@, old(self).cache().icons.len()),
                icons: old(self).cache().icons.push(cursor.model()),
            }),
    {
        let slot = self.cursors.len();
        let ghost c0 = self.cursors@;
        self.cursors.push(cursor);
        assert(self.cursors@.map_values(|c: Cursor| c.model()) =~= c0.map_values(|c: Cursor| c.model()).push(
            cursor.model(),
        ));
        self.add_alias(name, slot);
    }

    /// Meets the entry `e` of the directory `dir`, as `place` says.
    fn place_entry(&mut self, dir: &String, fmt: Format, e: &DirEntry)
        requires
            old(self).wf(),
        ensures
            final(self).wf(),
            final(self).cache() == place(old(self).cache(), dir@, fmt, *e),
    {
        if self.slot_of(&e.name).is_some() {
            return;
        }
        match &e.kind {
            EntryKind::Plain => {
                let path = join_path(dir.as_str(), e.name.as_str());
                self.add_icon(e.name.clone(), Cursor::of_format(fmt, path));
            },
            EntryKind::Link { target } => {
                if let Some(t) = target {
                    if let Some((parent, file)) = split_target(t.as_str()) {
                        if parent == *dir {
                            if let Some(slot) = self.slot_of(&file) {
                                self.add_alias(e.name.clone(), slot);
                            }
                        }
                    }
                }
            },
        }
    }

    /// Meets the entries of `l` that are links (`links`) or that are not.
    fn scan_entries(&mut self, l: &Listing, fmt: Format, links: bool)
        requires
            old(self).wf(),
        ensures
            final(self).wf(),
            final(self).cache() == scan_pass(old(self).cache(), l.path@, fmt, l.entries@, links),
    {
        let ghost c0 = self.cache();
        let ghost es = l.entries@;
        let mut i: usize = 0;
        while i < l.entries.len()
            invariant
                i <= es.len(),
                es == l.entries@,
                self.wf(),
                self.cache() == scan_pass(c0, l.path@, fmt, es.subrange(0, i as int), links),
            decreases es.len() - i,
        {
            assert(es.subrange(0, i + 1).drop_last() =~= es.subrange(0, i as int));
            let e = &l.entries[i];
            let is_link = match &e.kind {
                EntryKind::Link { .. } => true,
                EntryKind::Plain => false,
            };
            if is_link == links {
                self.place_entry(&l.path, fmt, e);
            }
            i += 1;
        }
        assert(es.subrange(0, es.len() as int) =~= es);
    }

    /// Scans the icon directory `l`, as `scan_listing` says.
    fn scan(&mut self, l: &Listing, fmt: Format)
        requires
            old(self).wf(),
        ensures
            final(self).wf(),
            final(self).cache() == scan_listing(old(self).cache(), *l, fmt),
    {
        self.scan_entries(l, fmt, false);
        self.scan_entries(l, fmt, true);
    }

    /// The icon of the shape `name`, if the theme has one.
    pub fn icon(&self, name: &str) -> (r: Option<&Cursor>)
        requires
            self.wf(),
        ensures
            match r {
                Some(c) => self.cache().shapes.contains_key(name@) && c.model()
                    == self.cache().icons[self.cache().shapes[name@] as int],
                None => !self.cache().shapes.contains_key(name@),
            },
    {
        let key = name.to_owned();
        match self.slot_of(&key) {
            Some(s) => Some(&self.cursors[s]),
            None => None,
        }
    }
}

} // verus!

verus! {

/// The cache after scanning what one root holds for a theme: its SVG icon
/// directory where it has one, else its legacy icon directory.
pub open spec fn scan_dir(c: Cache, d: ThemeDir) -> Cache {
    match d.scalable {
        Some(l) => scan_listing(c, l, Format::Svg),
        None => match d.legacy {
            Some(l) => scan_listing(c, l, Format::X),
            None => c,
        },
    }
}

/// The cache after scanning, root by root in order, what each holds for a
/// theme; `None` stands for a root without such a directory.
pub open spec fn scan_dirs(c: Cache, dirs: Seq<Option<ThemeDir>>) -> Cache
    decreases dirs.len(),
{
    if dirs.len() == 0 {
        c
    } else {
        let prev = scan_dirs(c, dirs.drop_last());
        match dirs.last() {
            Some(d) => scan_dir(prev, d),
            None => prev,
        }
    }
}

/// The parent theme that the index file of `d` declares.
pub open spec fn dir_parent(d: ThemeDir) -> Option<Seq<char>> {
    match d.index {
        Some(ix) => inherits_of(ix@),
        None => None,
    }
}

/// The parent theme declared by the first root that declares one.
pub open spec fn inherited(dirs: Seq<Option<ThemeDir>>) -> Option<Seq<char>>
    decreases dirs.len(),
{
    if dirs.len() == 0 {
        None
    } else {
        let prev = inherited(dirs.drop_last());
        if prev is Some {
            prev
        } else {
            match dirs.last() {
                Some(d) => dir_parent(d),
                None => None,
            }
        }
    }
}

/// The worklist after the parent `p` was found: a name already waiting or
/// already resolved is not queued again, so an inheritance cycle ends.
pub open spec fn queue_parent(pending: Seq<Seq<char>>, seen: Seq<Seq<char>>, p: Option<Seq<char>>) -> Seq<
    Seq<char>,
> {
    match p {
        Some(name) => if pending.contains(name) || seen.contains(name) {
            pending
        } else {
            pending.push(name)
        },
        None => pending,
    }
}

/// Whether the text `name` is one of `v`.
fn holds_name(v: &Vec<String>, name: &String) -> (r: bool)
    ensures
        r == string_views(v@).contains(name@),
{
    let mut i: usize = 0;
    while i < v.len()
        invariant
            i <= v@.len(),
            forall|j: int| 0 <= j < i ==> (#[trigger] v@[j])@ != name@,
        decreases v@.len() - i,
    {
        if v[i] == *name {
            assert(string_views(v@)[i as int] == name@);
            return true;
        }
        i += 1;
    }
    assert forall|j: int| 0 <= j < string_views(v@).len() implies string_views(v@)[j] != name@ by {
        assert(string_views(v@)[j] == v@[j]@);
    }
    false
}

/// The resolution of one theme name into a `CursorTheme`. It keeps a stack of
/// theme names still to resolve, seeded with the requested one. For each name
/// taken from it (`next_theme`), the caller looks the name up under every
/// search root, in order, and hands what it found to `absorb`, which scans it
/// into the shape cache and queues the parent theme that it declares.
pub struct Resolver {
    pending: Vec<String>,
    seen: Vec<String>,
    theme: CursorTheme,
}

impl Resolver {
    /// The cache is consistent.
    pub closed spec fn wf(&self) -> bool {
        self.theme.wf()
    }

    /// The theme names still to resolve; the last is next.
    pub closed spec fn pending(&self) -> Seq<Seq<char>> {
        string_views(self.pending@)
    }

    /// The theme names taken so far.
    pub closed spec fn seen(&self) -> Seq<Seq<char>> {
        string_views(self.seen@)
    }

    /// What has been found so far.
    pub closed spec fn cache(&self) -> Cache {
        self.theme.cache()
    }

    /// A resolution of the theme `name`.
    pub fn new(name: &str) -> (r: Resolver)
        ensures
            r.wf(),
            r.pending() == seq![name@],
            r.seen() == Seq::<Seq<char>>::empty(),
            r.cache() == empty_cache(),
    {
        let mut pending: Vec<String> = Vec::new();
        pending.push(name.to_owned());
        let r = Resolver { pending, seen: Vec::new(), theme: CursorTheme::new() };
        assert(r.pending() =~= seq![name@]);
        assert(r.seen() =~= Seq::<Seq<char>>::empty());
        r
    }

    /// Takes the next theme name to resolve, if any is left.
    pub fn next_theme(&mut self) -> (r: Option<String>)
        requires
            old(self).wf(),
        ensures
            final(self).wf(),
            final(self).cache() == old(self).cache(),
            match r {
                Some(n) => old(self).pending().len() > 0 && n@ == old(self).pending().last()
                    && final(self).pending() == old(self).pending().drop_last() && final(self).seen()
                    == old(self).seen().push(n@),
                None => old(self).pending().len() == 0 && final(self).pending() == old(self).pending()
                    && final(self).seen() == old(self).seen(),
            },
    {
        let ghost prior = self.pending@;
        let ghost s0 = self.seen@;
        match self.pending.pop() {
            Some(n) => {
                self.seen.push(n.clone());
                assert(self.pending() =~= string_views(prior).drop_last());
                assert(self.seen() =~= string_views(s0).push(n@));
                Some(n)
            },
            None => None,
        }
    }

    /// Scans what the search roots, in order, hold for the theme name last
    /// taken, and queues the parent theme that the first of them declares.
    pub fn absorb(&mut self, dirs: &Vec<Option<ThemeDir>>)
        requires
            old(self).wf(),
        ensures
            final(self).wf(),
            final(self).cache() == scan_dirs(old(self).cache(), dirs@),
            final(self).seen() == old(self).seen(),
            final(self).pending() == queue_parent(old(self).pending(), old(self).seen(), inherited(dirs@)),
    {
        let ghost c0 = self.cache();
        let ghost ds = dirs@;
        let mut parent: Option<String> = None;
        let mut i: usize = 0;
        while i < dirs.len()
            invariant
                i <= ds.len(),
                ds == dirs@,
                self.wf(),
                self.cache() == scan_dirs(c0, ds.subrange(0, i as int)),
                self.pending == old(self).pending,
                self.seen == old(self).seen,
                match parent {
                    Some(p) => inherited(ds.subrange(0, i as int)) == Some(p@),
                    None => inherited(ds.subrange(0, i as int)) is None,
                },
            decreases ds.len() - i,
        {
            assert(ds.subrange(0, i + 1).drop_last() =~= ds.subrange(0, i as int));
            if let Some(d) = &dirs[i] {
                if let Some(l) = &d.scalable {
                    self.theme.scan(l, Format::Svg);
                } else if let Some(l) = &d.legacy {
                    self.theme.scan(l, Format::X);
                }
                if parent.is_none() {
                    if let Some(ix) = &d.index {
                        parent = theme_inherits(ix.as_str());
                    }
                }
            }
            i += 1;
        }
        assert(ds.subrange(0, ds.len() as int) =~= ds);
        if let Some(p) = parent {
            let queued = holds_name(&self.pending, &p);
            let done = holds_name(&self.seen, &p);
            if !queued && !done {
                let ghost prior = self.pending@;
                self.pending.push(p);
                assert(self.pending() =~= string_views(prior).push(p@));
            }
        }
    }

    /// The theme, unless nothing was found.
    pub fn finish(self) -> (r: Option<CursorTheme>)
        requires
            self.wf(),
        ensures
            match r {
                Some(t) => t.wf() && t.cache() == self.cache() && !self.cache().shapes.is_empty(),
                None => self.cache().shapes.is_empty(),
            },
    {
        proof {
            self.theme.lemma_cache();
        }
        if self.theme.names.len() == 0 {
            assert(self.cache().shapes =~= Map::<Seq<char>, nat>::empty());
            None
        } else {
            assert(self.cache().shapes.contains_key(self.theme.names@[0]@));
            Some(self.theme)
        }
    }
}

} // verus!

verus! {

/// `b` keeps every shape of `a` with its icon, and every icon of `a`.
pub open spec fn extends(a: Cache, b: Cache) -> bool {
    &&& forall|k: Seq<char>|
        #[trigger] a.shapes.contains_key(k) ==> b.shapes.contains_key(k) && b.shapes[k] == a.shapes[k]
    &&& a.icons.len() <= b.icons.len()
    &&& forall|i: int| 0 <= i < a.icons.len() ==> #[trigger] b.icons[i] == a.icons[i]
}

/// A link that does not resolve to an entry of the directory `dir` itself.
pub open spec fn leaves_dir(e: DirEntry, dir: Seq<char>) -> bool {
    match e.kind {
        EntryKind::Link { target } => match target {
            Some(t) => match target_parts(t@) {
                Some((parent, _)) => parent != dir,
                None => true,
            },
            None => true,
        },
        EntryKind::Plain => false,
    }
}

/// A link that resolves to the entry `file` of the directory `dir`.
pub open spec fn links_to(e: DirEntry, dir: Seq<char>, file: Seq<char>) -> bool {
    match e.kind {
        EntryKind::Link { target } => match target {
            Some(t) => target_parts(t@) == Some((dir, file)),
            None => false,
        },
        EntryKind::Plain => false,
    }
}

/// No two entries have the same name, as in any directory.
pub open spec fn distinct_entries(es: Seq<DirEntry>) -> bool {
    forall|i: int, j: int| 0 <= i < es.len() && 0 <= j < es.len() && i != j ==> es[i].name@ != es[j].name@
}

proof fn lemma_extends_trans(a: Cache, b: Cache, c: Cache)
    requires
        extends(a, b),
        extends(b, c),
    ensures
        extends(a, c),
{
    assert forall|i: int| 0 <= i < a.icons.len() implies #[trigger] c.icons[i] == a.icons[i] by {
        assert(b.icons[i] == a.icons[i]);
    }
}

proof fn lemma_place_extends(c: Cache, dir: Seq<char>, fmt: Format, e: DirEntry)
    ensures
        extends(c, place(c, dir, fmt, e)),
{
}

proof fn lemma_pass_step(c: Cache, dir: Seq<char>, fmt: Format, es: Seq<DirEntry>, links: bool, m: int)
    requires
        0 <= m < es.len(),
    ensures
        scan_pass(c, dir, fmt, es.subrange(0, m + 1), links) == if (es[m].kind is Link) == links {
            place(scan_pass(c, dir, fmt, es.subrange(0, m), links), dir, fmt, es[m])
        } else {
            scan_pass(c, dir, fmt, es.subrange(0, m), links)
        },
{
    assert(es.subrange(0, m + 1).drop_last() =~= es.subrange(0, m));
}

proof fn lemma_pass_extends(
    c: Cache,
    dir: Seq<char>,
    fmt: Format,
    es: Seq<DirEntry>,
    links: bool,
    m1: int,
    m2: int,
)
    requires
        0 <= m1 <= m2 <= es.len(),
    ensures
        extends(
            scan_pass(c, dir, fmt, es.subrange(0, m1), links),
            scan_pass(c, dir, fmt, es.subrange(0, m2), links),
        ),
    decreases m2 - m1,
{
    if m1 < m2 {
        lemma_pass_extends(c, dir, fmt, es, links, m1, m2 - 1);
        lemma_pass_step(c, dir, fmt, es, links, m2 - 1);
        lemma_place_extends(scan_pass(c, dir, fmt, es.subrange(0, m2 - 1), links), dir, fmt, es[m2 - 1]);
        lemma_extends_trans(
            scan_pass(c, dir, fmt, es.subrange(0, m1), links),
            scan_pass(c, dir, fmt, es.subrange(0, m2 - 1), links),
            scan_pass(c, dir, fmt, es.subrange(0, m2), links),
        );
    }
}

proof fn lemma_pass_whole(c: Cache, dir: Seq<char>, fmt: Format, es: Seq<DirEntry>, links: bool)
    ensures
        scan_pass(c, dir, fmt, es.subrange(0, 0), links) == c,
        scan_pass(c, dir, fmt, es.subrange(0, es.len() as int), links) == scan_pass(c, dir, fmt, es, links),
        extends(c, scan_pass(c, dir, fmt, es, links)),
{
    assert(es.subrange(0, es.len() as int) =~= es);
    lemma_pass_extends(c, dir, fmt, es, links, 0, es.len() as int);
}

proof fn lemma_listing_extends(c: Cache, l: Listing, fmt: Format)
    ensures
        extends(c, scan_listing(c, l, fmt)),
{
    let c1 = scan_pass(c, l.path@, fmt, l.entries@, false);
    lemma_pass_whole(c, l.path@, fmt, l.entries@, false);
    lemma_pass_whole(c1, l.path@, fmt, l.entries@, true);
    lemma_extends_trans(c, c1, scan_listing(c, l, fmt));
}

proof fn lemma_dirs_step(c: Cache, dirs: Seq<Option<ThemeDir>>, m: int)
    requires
        0 <= m < dirs.len(),
    ensures
        scan_dirs(c, dirs.subrange(0, m + 1)) == match dirs[m] {
            Some(d) => scan_dir(scan_dirs(c, dirs.subrange(0, m)), d),
            None => scan_dirs(c, dirs.subrange(0, m)),
        },
        extends(scan_dirs(c, dirs.subrange(0, m)), scan_dirs(c, dirs.subrange(0, m + 1))),
{
    assert(dirs.subrange(0, m + 1).drop_last() =~= dirs.subrange(0, m));
    let prev = scan_dirs(c, dirs.subrange(0, m));
    if let Some(d) = dirs[m] {
        match d.scalable {
            Some(l) => lemma_listing_extends(prev, l, Format::Svg),
            None => match d.legacy {
                Some(l) => lemma_listing_extends(prev, l, Format::X),
                None => {},
            },
        }
    }
}

proof fn lemma_dirs_extends(c: Cache, dirs: Seq<Option<ThemeDir>>, m1: int, m2: int)
    requires
        0 <= m1 <= m2 <= dirs.len(),
    ensures
        extends(scan_dirs(c, dirs.subrange(0, m1)), scan_dirs(c, dirs.subrange(0, m2))),
    decreases m2 - m1,
{
    if m1 < m2 {
        lemma_dirs_extends(c, dirs, m1, m2 - 1);
        lemma_dirs_step(c, dirs, m2 - 1);
        lemma_extends_trans(
            scan_dirs(c, dirs.subrange(0, m1)),
            scan_dirs(c, dirs.subrange(0, m2 - 1)),
            scan_dirs(c, dirs.subrange(0, m2)),
        );
    }
}

/// A pass never adds the name `k` when each entry of that name is of the other
/// kind or is a link out of the directory.
proof fn lemma_pass_absent(
    c: Cache,
    dir: Seq<char>,
    fmt: Format,
    es: Seq<DirEntry>,
    links: bool,
    k: Seq<char>,
)
    requires
        !c.shapes.contains_key(k),
        forall|j: int|
            0 <= j < es.len() && (#[trigger] es[j]).name@ == k ==> (es[j].kind is Link) != links
                || leaves_dir(es[j], dir),
    ensures
        !scan_pass(c, dir, fmt, es, links).shapes.contains_key(k),
    decreases es.len(),
{
    if es.len() > 0 {
        let rest = es.drop_last();
        assert forall|j: int|
            0 <= j < rest.len() && (#[trigger] rest[j]).name@ == k implies (rest[j].kind is Link) != links
            || leaves_dir(rest[j], dir) by {
            assert(rest[j] == es[j]);
        }
        lemma_pass_absent(c, dir, fmt, rest, links, k);
        assert(es.last() == es[es.len() - 1]);
    }
}

/// After the pass over plain entries, the plain entry `es[j]` has a shape.
proof fn lemma_plain_present(c: Cache, dir: Seq<char>, fmt: Format, es: Seq<DirEntry>, j: int)
    requires
        0 <= j < es.len(),
        es[j].kind is Plain,
    ensures
        scan_pass(c, dir, fmt, es, false).shapes.contains_key(es[j].name@),
{
    lemma_pass_step(c, dir, fmt, es, false, j);
    let p = scan_pass(c, dir, fmt, es.subrange(0, j + 1), false);
    assert(p.shapes.contains_key(es[j].name@));
    lemma_pass_extends(c, dir, fmt, es, false, j + 1, es.len() as int);
    lemma_pass_whole(c, dir, fmt, es, false);
}

/// First writer wins: a shape found under the first `i` search roots keeps the
/// icon found there, whatever the later roots hold, links included.
pub proof fn lemma_earlier_root_wins(c: Cache, dirs: Seq<Option<ThemeDir>>, i: int, k: Seq<char>)
    requires
        0 <= i <= dirs.len(),
        scan_dirs(c, dirs.subrange(0, i)).shapes.contains_key(k),
    ensures
        scan_dirs(c, dirs).shapes.contains_key(k),
        scan_dirs(c, dirs).shapes[k] == scan_dirs(c, dirs.subrange(0, i)).shapes[k],
        extends(scan_dirs(c, dirs.subrange(0, i)), scan_dirs(c, dirs)),
{
    lemma_dirs_extends(c, dirs, i, dirs.len() as int);
    assert(dirs.subrange(0, dirs.len() as int) =~= dirs);
}

/// A link to a plain sibling entry shares that entry's icon, unless its own
/// name already had one.
pub proof fn lemma_link_shares_icon(c: Cache, l: Listing, fmt: Format, t: int, a: int)
    requires
        distinct_entries(l.entries@),
        0 <= t < l.entries@.len(),
        0 <= a < l.entries@.len(),
        l.entries@[t].kind is Plain,
        links_to(l.entries@[a], l.path@, l.entries@[t].name@),
        !c.shapes.contains_key(l.entries@[a].name@),
    ensures
        scan_listing(c, l, fmt).shapes.contains_key(l.entries@[a].name@),
        scan_listing(c, l, fmt).shapes.contains_key(l.entries@[t].name@),
        scan_listing(c, l, fmt).shapes[l.entries@[a].name@] == scan_listing(c, l, fmt).shapes[l.entries@[t].name@],
{
    let es = l.entries@;
    let dir = l.path@;
    let an = es[a].name@;
    let tn = es[t].name@;
    let c1 = scan_pass(c, dir, fmt, es, false);
    lemma_plain_present(c, dir, fmt, es, t);
    assert forall|j: int| 0 <= j < es.len() && (#[trigger] es[j]).name@ == an implies (es[j].kind is Link)
        != false || leaves_dir(es[j], dir) by {
        if j != a {
            assert(es[j].name@ != es[a].name@);
        }
    }
    lemma_pass_absent(c, dir, fmt, es, false, an);
    assert(a != t);
    assert(an != tn);
    let pre = es.subrange(0, a);
    assert forall|j: int| 0 <= j < pre.len() && (#[trigger] pre[j]).name@ == an implies (pre[j].kind is Link)
        != true || leaves_dir(pre[j], dir) by {
        assert(pre[j] == es[j]);
        assert(es[j].name@ != es[a].name@);
    }
    lemma_pass_absent(c1, dir, fmt, pre, true, an);
    lemma_pass_whole(c1, dir, fmt, es, true);
    lemma_pass_extends(c1, dir, fmt, es, true, 0, a);
    let p = scan_pass(c1, dir, fmt, pre, true);
    assert(p.shapes.contains_key(tn));
    lemma_pass_step(c1, dir, fmt, es, true, a);
    let q = scan_pass(c1, dir, fmt, es.subrange(0, a + 1), true);
    assert(q.shapes.contains_key(an) && q.shapes[an] == p.shapes[tn]);
    assert(q.shapes.contains_key(tn) && q.shapes[tn] == p.shapes[tn]);
    lemma_pass_extends(c1, dir, fmt, es, true, a + 1, es.len() as int);
    assert(scan_listing(c, l, fmt) == scan_pass(c1, dir, fmt, es.subrange(0, es.len() as int), true));
}

/// A link that leads out of its directory, or nowhere, never gets a shape of
/// its own.
pub proof fn lemma_outside_link_dropped(c: Cache, l: Listing, fmt: Format, a: int)
    requires
        distinct_entries(l.entries@),
        0 <= a < l.entries@.len(),
        leaves_dir(l.entries@[a], l.path@),
        !c.shapes.contains_key(l.entries@[a].name@),
    ensures
        !scan_listing(c, l, fmt).shapes.contains_key(l.entries@[a].name@),
{
    let es = l.entries@;
    let dir = l.path@;
    let an = es[a].name@;
    lemma_pass_absent(c, dir, fmt, es, false, an);
    lemma_pass_absent(scan_pass(c, dir, fmt, es, false), dir, fmt, es, true, an);
}

/// The listing that a root's directory for a theme is scanned through.
pub open spec fn chosen_listing(d: ThemeDir) -> Option<Listing> {
    match d.scalable {
        Some(l) => Some(l),
        None => d.legacy,
    }
}

/// Every plain entry of the icon directory that a root's theme directory is
/// scanned through has a shape once the roots are scanned: so the shapes of
/// an inherited theme are found once its name, which `absorb` queues, is
/// resolved.
pub proof fn lemma_scanned_shape_found(c: Cache, dirs: Seq<Option<ThemeDir>>, i: int, j: int)
    requires
        0 <= i < dirs.len(),
        dirs[i] is Some,
        chosen_listing(dirs[i]->0) is Some,
        0 <= j < chosen_listing(dirs[i]->0)->0.entries@.len(),
        chosen_listing(dirs[i]->0)->0.entries@[j].kind is Plain,
    ensures
        scan_dirs(c, dirs).shapes.contains_key(chosen_listing(dirs[i]->0)->0.entries@[j].name@),
{
    let d = dirs[i]->0;
    let l = chosen_listing(d)->0;
    let fmt = chosen_format(d);
    let prev = scan_dirs(c, dirs.subrange(0, i));
    lemma_dirs_step(c, dirs, i);
    assert(scan_dirs(c, dirs.subrange(0, i + 1)) == scan_listing(prev, l, fmt));
    let c1 = scan_pass(prev, l.path@, fmt, l.entries@, false);
    lemma_plain_present(prev, l.path@, fmt, l.entries@, j);
    lemma_pass_whole(c1, l.path@, fmt, l.entries@, true);
    lemma_dirs_extends(c, dirs, i + 1, dirs.len() as int);
    assert(dirs.subrange(0, dirs.len() as int) =~= dirs);
}

/// A theme name with no directory under any search root adds nothing and
/// declares no parent, so a resolution of it alone finds nothing.
pub proof fn lemma_absent_theme(c: Cache, dirs: Seq<Option<ThemeDir>>)
    requires
        forall|i: int| 0 <= i < dirs.len() ==> (#[trigger] dirs[i]) is None,
    ensures
        scan_dirs(c, dirs) == c,
        inherited(dirs) is None,
    decreases dirs.len(),
{
    if dirs.len() > 0 {
        let rest = dirs.drop_last();
        assert forall|i: int| 0 <= i < rest.len() implies (#[trigger] rest[i]) is None by {
            assert(rest[i] == dirs[i]);
        }
        lemma_absent_theme(c, rest);
        assert(dirs[dirs.len() - 1] is None);
    }
}

/// The format of the icons that a root's theme directory is scanned as.
pub open spec fn chosen_format(d: ThemeDir) -> Format {
    if d.scalable is Some {
        Format::Svg
    } else {
        Format::X
    }
}

/// First writer wins, by icon: when the first root that holds the shape `k`
/// is root `i`, as the plain entry `e` of the directory it is scanned
/// through, the theme's icon for `k` is that entry's file, whatever later
/// roots hold under the same name.
pub proof fn lemma_first_root_icon(c: Cache, dirs: Seq<Option<ThemeDir>>, i: int, e: int)
    requires
        0 <= i < dirs.len(),
        dirs[i] is Some,
        chosen_listing(dirs[i]->0) is Some,
        distinct_entries(chosen_listing(dirs[i]->0)->0.entries@),
        0 <= e < chosen_listing(dirs[i]->0)->0.entries@.len(),
        chosen_listing(dirs[i]->0)->0.entries@[e].kind is Plain,
        !scan_dirs(c, dirs.subrange(0, i)).shapes.contains_key(
            chosen_listing(dirs[i]->0)->0.entries@[e].name@,
        ),
    ensures
        ({
            let l = chosen_listing(dirs[i]->0)->0;
            let k = l.entries@[e].name@;
            let r = scan_dirs(c, dirs);
            &&& r.shapes.contains_key(k)
            &&& r.shapes[k] < r.icons.len()
            &&& r.icons[r.shapes[k] as int] == (chosen_format(dirs[i]->0), join(l.path@, k))
        }),
{
    let d = dirs[i]->0;
    let l = chosen_listing(d)->0;
    let fmt = chosen_format(d);
    let es = l.entries@;
    let dir = l.path@;
    let k = es[e].name@;
    let prev = scan_dirs(c, dirs.subrange(0, i));
    lemma_dirs_step(c, dirs, i);
    assert(scan_dirs(c, dirs.subrange(0, i + 1)) == scan_listing(prev, l, fmt));
    let pre = es.subrange(0, e);
    assert forall|j: int| 0 <= j < pre.len() && (#[trigger] pre[j]).name@ == k implies (pre[j].kind is Link)
        != false || leaves_dir(pre[j], dir) by {
        assert(pre[j] == es[j]);
        assert(es[j].name@ != es[e].name@);
    }
    lemma_pass_absent(prev, dir, fmt, pre, false, k);
    lemma_pass_step(prev, dir, fmt, es, false, e);
    let p = scan_pass(prev, dir, fmt, es.subrange(0, e + 1), false);
    let idx = scan_pass(prev, dir, fmt, pre, false).icons.len();
    assert(p.shapes.contains_key(k) && p.shapes[k] == idx && p.icons[idx as int] == (fmt, join(dir, k)));
    lemma_pass_extends(prev, dir, fmt, es, false, e + 1, es.len() as int);
    lemma_pass_whole(prev, dir, fmt, es, false);
    let c1 = scan_pass(prev, dir, fmt, es, false);
    lemma_pass_whole(c1, dir, fmt, es, true);
    lemma_extends_trans(p, c1, scan_listing(prev, l, fmt));
    lemma_dirs_extends(c, dirs, i + 1, dirs.len() as int);
    assert(dirs.subrange(0, dirs.len() as int) =~= dirs);
    lemma_extends_trans(p, scan_listing(prev, l, fmt), scan_dirs(c, dirs));
    let r = scan_dirs(c, dirs);
    assert(r.icons[idx as int] == p.icons[idx as int]);
}

} // verus!
