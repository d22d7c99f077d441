//! Files of the root directory: the flags of `open`, the open file's cursor,
//! and the table of hard links the kernel keeps in memory.
//!
//! The directory itself stores no links. The kernel keeps, by name: which
//! names are aliases of which file ("canonical" name), how many names each
//! file has, and which canonical names were unlinked and are hidden since.
//! Whether the directory holds a name is asked of the file system by the
//! caller and handed in as `found`.
use vstd::prelude::*;
use vstd::string::*;
use crate::name_table::NameTable;

verus! {

/// Flags of the `open` system call.
#[derive(Clone, Copy)]
pub struct OpenFlags {
    pub bits: u32,
}

impl OpenFlags {
    /// Read only (no bit set).
    pub fn rdonly() -> (r: OpenFlags)
        ensures
            r.bits == 0,
    {
        OpenFlags { bits: 0 }
    }

    /// Write only.
    pub fn wronly() -> (r: OpenFlags)
        ensures
            r.bits == 1,
    {
        OpenFlags { bits: 1 }
    }

    /// Read and write.
    pub fn rdwr() -> (r: OpenFlags)
        ensures
            r.bits == 2,
    {
        OpenFlags { bits: 2 }
    }

    /// Create the file when it is missing.
    pub fn create() -> (r: OpenFlags)
        ensures
            r.bits == 0x200,
    {
        OpenFlags { bits: 0x200 }
    }

    /// Truncate the file to size 0.
    pub fn trunc() -> (r: OpenFlags)
        ensures
            r.bits == 0x400,
    {
        OpenFlags { bits: 0x400 }
    }

    /// The flags of `bits`, or `None` when a bit is set that is no flag.
    pub fn from_bits(bits: u32) -> (r: Option<OpenFlags>)
        ensures
            r == (if bits & !0x603u32 == 0 {
                Some(OpenFlags { bits })
            } else {
                None
            }),
    {
        if bits & !0x603u32 == 0 {
            Some(OpenFlags { bits })
        } else {
            None
        }
    }

    /// The flags of `bits`, dropping the bits that are no flag.
    pub fn from_bits_truncate(bits: u32) -> (r: OpenFlags)
        ensures
            r.bits == bits & 0x603u32,
    {
        OpenFlags { bits: bits & 0x603u32 }
    }

    /// The raw bits.
    pub fn bits(&self) -> (r: u32)
        ensures
            r == self.bits,
    {
        self.bits
    }

    /// No bit is set.
    pub fn is_empty(&self) -> (r: bool)
        ensures
            r == (self.bits == 0),
    {
        self.bits == 0
    }

    /// Every bit of `other` is set in `self`.
    pub fn contains(&self, other: OpenFlags) -> (r: bool)
        ensures
            r == (self.bits & other.bits == other.bits),
    {
        self.bits & other.bits == other.bits
    }

    /// Access the flags grant, as `(readable, writable)`; the access mode
    /// bits are not checked against each other.
    pub fn read_write(&self) -> (r: (bool, bool))
        ensures
            r == (if self.bits == 0 {
                (true, false)
            } else if self.bits & 1 == 1 {
                (false, true)
            } else {
                (true, true)
            }),
    {
        if self.is_empty() {
            (true, false)
        } else if self.contains(OpenFlags::wronly()) {
            (false, true)
        } else {
            (true, true)
        }
    }
}

/// A file opened in the root directory: its access rights, its cursor and
/// the canonical name it was opened under.
pub struct OSInode {
    readable: bool,
    writable: bool,
    offset: usize,
    canonical_name: String,
}

impl OSInode {
    /// A file opened under `canonical_name`, with its cursor at 0.
    pub fn new(readable: bool, writable: bool, canonical_name: String) -> (f: Self)
        ensures
            f.spec_readable() == readable,
            f.spec_writable() == writable,
            f.spec_offset() == 0,
            f.spec_name() == canonical_name@,
    {
        OSInode { readable, writable, offset: 0, canonical_name }
    }

    pub closed spec fn spec_readable(&self) -> bool {
        self.readable
    }

    pub closed spec fn spec_writable(&self) -> bool {
        self.writable
    }

    pub closed spec fn spec_offset(&self) -> nat {
        self.offset as nat
    }

    pub closed spec fn spec_name(&self) -> Seq<char> {
        self.canonical_name@
    }

    /// The file was opened for reading.
    pub fn readable(&self) -> (r: bool)
        ensures
            r == self.spec_readable(),
    {
        self.readable
    }

    /// The file was opened for writing.
    pub fn writable(&self) -> (r: bool)
        ensures
            r == self.spec_writable(),
    {
        self.writable
    }

    /// Position of the cursor, in bytes.
    pub fn offset(&self) -> (r: usize)
        ensures
            r == self.spec_offset(),
    {
        self.offset
    }

    /// The canonical name the file was opened under.
    pub fn canonical_name(&self) -> (r: &String)
        ensures
            r@ == self.spec_name(),
    {
        &self.canonical_name
    }

    /// Moves the cursor past `n` bytes that were read or written.
    pub fn advance(&mut self, n: usize)
        requires
            old(self).spec_offset() + n <= usize::MAX,
        ensures
            final(self).spec_offset() == old(self).spec_offset() + n,
            final(self).spec_readable() == old(self).spec_readable(),
            final(self).spec_writable() == old(self).spec_writable(),
            final(self).spec_name() == old(self).spec_name(),
    {
        self.offset = self.offset + n;
    }
}

/// What `open` is to do, once the link table has decided.
pub enum OpenPlan {
    /// The name is hidden or missing: `open` fails.
    Denied,
    /// Open the existing file `canonical`, emptying it first when `truncate`.
    Open { canonical: String, readable: bool, writable: bool, truncate: bool },
    /// Create the file `canonical`, then record it with `file_created`.
    Create { canonical: String, readable: bool, writable: bool },
}

/// The kernel's in-memory table of hard links of the root directory.
pub struct LinkState {
    aliases: NameTable<String>,
    nlinks: NameTable<u32>,
    tombstones: NameTable<()>,
}

/// Whether `open` refuses `name`: a hidden canonical name reached not
/// through an alias, or, without `CREATE`, a file the directory lacks.
pub open spec fn open_denied(pre: LinkState, name: Seq<char>, flags: OpenFlags, found: bool) -> bool {
    let c = pre.resolves_to(name);
    if flags.bits & 0x200 == 0x200 {
        false
    } else {
        (pre.hidden().contains(c) && !pre.alias_of().contains_key(name)) || !found
    }
}

/// Whether `link_file` adds `new_name` as a name of the file that
/// `old_name` resolves to: the file exists and is not hidden, and
/// `new_name` is free (no alias, not hidden, not in the directory). A name
/// that is the canonical name itself or that aliases lead to names a file
/// of the directory, so `new_found` is set for it whenever the directory is
/// consulted; it is refused on its own as well, which keeps every alias one
/// step from its file.
pub open spec fn link_allowed(
    pre: LinkState,
    old_name: Seq<char>,
    new_name: Seq<char>,
    old_found: bool,
    new_found: bool,
) -> bool {
    let c = pre.resolves_to(old_name);
    &&& old_found
    &&& !pre.hidden().contains(c)
    &&& !pre.alias_of().contains_key(new_name)
    &&& !pre.hidden().contains(new_name)
    &&& !new_found
    &&& new_name != c
    &&& !pre.is_alias_target(new_name)
}

/// Whether `unlink_file` removes `name`: an alias always, a canonical name
/// when the directory holds it and it is not hidden yet.
pub open spec fn unlink_allowed(pre: LinkState, name: Seq<char>, found: bool) -> bool {
    pre.alias_of().contains_key(name) || (found && !pre.hidden().contains(name))
}

/// Access rights that `flags` grant, as `read_write` computes them.
pub open spec fn rw_of(flags: OpenFlags) -> (bool, bool) {
    if flags.bits == 0 {
        (true, false)
    } else if flags.bits & 1 == 1 {
        (false, true)
    } else {
        (true, true)
    }
}

/// `CREATE` is among `flags`.
pub open spec fn creates(flags: OpenFlags) -> bool {
    flags.bits & 0x200 == 0x200
}

/// Two link tables that no caller can tell apart.
pub open spec fn same_view(a: LinkState, b: LinkState) -> bool {
    &&& a.alias_of() == b.alias_of()
    &&& a.counts() == b.counts()
    &&& a.hidden() == b.hidden()
}

/// How `open_file` changes the table: `CREATE` lifts the hiding of the
/// canonical name; opening a file the directory holds records a count of 1
/// for it when none is recorded.
pub open spec fn open_step(pre: LinkState, post: LinkState, name: Seq<char>, flags: OpenFlags, found: bool) -> bool {
    let c = pre.resolves_to(name);
    if open_denied(pre, name, flags, found) {
        same_view(pre, post)
    } else {
        &&& post.alias_of() == pre.alias_of()
        &&& post.hidden() == if creates(flags) { pre.hidden().remove(c) } else { pre.hidden() }
        &&& post.counts() == if found && !pre.counts().contains_key(c) {
            pre.counts().insert(c, 1)
        } else {
            pre.counts()
        }
    }
}

/// How `link_file` changes the table: `new_name` becomes an alias of the
/// canonical name of `old_name`, whose count goes up by one.
pub open spec fn link_step(
    pre: LinkState,
    post: LinkState,
    old_name: Seq<char>,
    new_name: Seq<char>,
    old_found: bool,
    new_found: bool,
) -> bool {
    let c = pre.resolves_to(old_name);
    if link_allowed(pre, old_name, new_name, old_found, new_found) {
        &&& post.alias_of() == pre.alias_of().insert(new_name, c)
        &&& post.counts() == pre.counts().insert(c, (pre.nlink_view(c) + 1) as u32)
        &&& post.hidden() == pre.hidden()
    } else {
        same_view(pre, post)
    }
}

/// How `unlink_file` changes the table: an alias is dropped and the count
/// of its file goes down, but not below 1; a canonical name is hidden and
/// its count goes down, but not below 1.
pub open spec fn unlink_step(pre: LinkState, post: LinkState, name: Seq<char>, found: bool) -> bool {
    if pre.alias_of().contains_key(name) {
        let c = pre.alias_of()[name];
        &&& post.alias_of() == pre.alias_of().remove(name)
        &&& post.hidden() == pre.hidden()
        &&& post.counts() == if pre.counts().contains_key(c) && pre.counts()[c] > 1 {
            pre.counts().insert(c, (pre.counts()[c] - 1) as u32)
        } else {
            pre.counts()
        }
    } else if unlink_allowed(pre, name, found) {
        &&& post.alias_of() == pre.alias_of()
        &&& post.hidden() == pre.hidden().insert(name)
        &&& post.counts() == pre.counts().insert(
            name,
            if pre.nlink_view(name) > 1 {
                (pre.nlink_view(name) - 1) as u32
            } else {
                1u32
            },
        )
    } else {
        same_view(pre, post)
    }
}

impl LinkState {
    /// Aliases, as a map from alias to canonical name.
    pub closed spec fn alias_of(&self) -> Map<Seq<char>, Seq<char>> {
        self.aliases@.map_values(|s: String| s@)
    }

    /// Recorded link counts, by canonical name.
    pub closed spec fn counts(&self) -> Map<Seq<char>, u32> {
        self.nlinks@
    }

    /// Canonical names hidden by an unlink.
    pub closed spec fn hidden(&self) -> Set<Seq<char>> {
        self.tombstones@.dom()
    }

    /// The canonical name that `name` stands for.
    pub open spec fn resolves_to(&self, name: Seq<char>) -> Seq<char> {
        if self.alias_of().contains_key(name) {
            self.alias_of()[name]
        } else {
            name
        }
    }

    /// Some alias leads to `name`.
    pub open spec fn is_alias_target(&self, name: Seq<char>) -> bool {
        exists|a: Seq<char>| #[trigger] self.alias_of().contains_key(a) && self.alias_of()[a] == name
    }

    /// Number of names of the file `canonical`; 1 when none is recorded.
    pub open spec fn nlink_view(&self, canonical: Seq<char>) -> u32 {
        if self.counts().contains_key(canonical) {
            self.counts()[canonical]
        } else {
            1
        }
    }

    /// Tables are well formed, aliases lead straight to a canonical name,
    /// and every recorded count is at least 1.
    pub closed spec fn wf(&self) -> bool {
        &&& self.aliases.wf()
        &&& self.nlinks.wf()
        &&& self.tombstones.wf()
        &&& forall|a: Seq<char>|
            #[trigger] self.aliases@.contains_key(a) ==> !self.aliases@.contains_key(
                self.aliases@[a]@,
            )
        &&& forall|c: Seq<char>| #[trigger] self.nlinks@.contains_key(c) ==> self.nlinks@[c] >= 1
    }

    /// An empty table: no aliases, no counts, nothing hidden.
    pub fn new() -> (s: Self)
        ensures
            s.wf(),
            s.alias_of() == Map::<Seq<char>, Seq<char>>::empty(),
            s.counts() == Map::<Seq<char>, u32>::empty(),
            s.hidden() == Set::<Seq<char>>::empty(),
    {
        let s = LinkState { aliases: NameTable::new(), nlinks: NameTable::new(), tombstones: NameTable::new() };
        assert(s.alias_of() =~= Map::<Seq<char>, Seq<char>>::empty());
        assert(s.hidden() =~= Set::<Seq<char>>::empty());
        s
    }

    proof fn lemma_alias_view(&self, a: Seq<char>)
        ensures
            self.alias_of().contains_key(a) == self.aliases@.contains_key(a),
            self.aliases@.contains_key(a) ==> self.alias_of()[a] == self.aliases@[a]@,
    {
    }

    /// Follows aliases from `name` to the canonical name.
    pub fn resolve_name(&self, name: &str) -> (r: String)
        requires
            self.wf(),
        ensures
            r@ == self.resolves_to(name@),
    {
        let mut cur = String::from_str(name);
        loop
            invariant
                self.wf(),
                cur@ == name@ || (self.aliases@.contains_key(name@) && cur@
                    == self.aliases@[name@]@),
            ensures
                cur@ == self.resolves_to(name@),
            decreases
                if self.aliases@.contains_key(cur@) {
                    1int
                } else {
                    0int
                },
        {
            proof {
                self.lemma_alias_view(name@);
            }
            match self.aliases.position(&cur) {
                Some(i) => {
                    let next = self.aliases.value_at(i).clone();
                    proof {
                        if cur@ != name@ {
                            assert(!self.aliases@.contains_key(cur@));
                        }
                    }
                    cur = next;
                },
                None => {
                    break;
                },
            }
        }
        cur
    }

    /// Number of names of the file `canonical_name`; 1 when none is
    /// recorded.
    pub fn inode_nlink(&self, canonical_name: &str) -> (r: u32)
        requires
            self.wf(),
        ensures
            r == self.nlink_view(canonical_name@),
    {
        let c = String::from_str(canonical_name);
        match self.nlinks.position(&c) {
            Some(i) => *self.nlinks.value_at(i),
            None => 1,
        }
    }
}

impl LinkState {
    proof fn lemma_alias_insert(&self, post: &LinkState, key: Seq<char>, v: String)
        requires
            post.aliases@ == self.aliases@.insert(key, v),
        ensures
            post.alias_of() == self.alias_of().insert(key, v@),
    {
        assert(post.alias_of() =~= self.alias_of().insert(key, v@));
    }

    proof fn lemma_alias_remove(&self, post: &LinkState, key: Seq<char>)
        requires
            post.aliases@ == self.aliases@.remove(key),
        ensures
            post.alias_of() == self.alias_of().remove(key),
    {
        assert(post.alias_of() =~= self.alias_of().remove(key));
    }

    /// Records a count of 1 for `c` unless one is recorded.
    fn ensure_count(&mut self, c: &String)
        requires
            old(self).wf(),
        ensures
            final(self).wf(),
            final(self).aliases@ == old(self).aliases@,
            final(self).tombstones@ == old(self).tombstones@,
            final(self).nlinks@ == if old(self).nlinks@.contains_key(c@) {
                old(self).nlinks@
            } else {
                old(self).nlinks@.insert(c@, 1)
            },
    {
        if self.nlinks.position(c).is_none() {
            self.nlinks.insert_new(c.clone(), 1);
        }
    }

    /// Decides an `open` of `name`. `found` tells whether the directory
    /// holds the canonical name `resolve_name(name)`. A canonical name
    /// hidden by an unlink stays hidden from its own name, but not from its
    /// aliases; `CREATE` lifts the hiding.
    pub fn open_file(&mut self, name: &str, flags: OpenFlags, found: bool) -> (plan: OpenPlan)
        requires
            old(self).wf(),
        ensures
            final(self).wf(),
            open_step(*old(self), *final(self), name@, flags, found),
            (plan is Denied) == open_denied(*old(self), name@, flags, found),
            match plan {
                OpenPlan::Denied => true,
                OpenPlan::Open { canonical, readable, writable, truncate } => {
                    &&& found
                    &&& canonical@ == old(self).resolves_to(name@)
                    &&& (readable, writable) == rw_of(flags)
                    &&& truncate == (creates(flags) || flags.bits & 0x400 == 0x400)
                },
                OpenPlan::Create { canonical, readable, writable } => {
                    &&& !found
                    &&& creates(flags)
                    &&& canonical@ == old(self).resolves_to(name@)
                    &&& (readable, writable) == rw_of(flags)
                },
            },
    {
        let (readable, writable) = flags.read_write();
        let canonical = self.resolve_name(name);
        let name_s = String::from_str(name);
        let create = flags.contains(OpenFlags::create());
        proof {
            self.lemma_alias_view(name@);
        }
        if !create && self.tombstones.position(&canonical).is_some() && self.aliases.position(
            &name_s,
        ).is_none() {
            return OpenPlan::Denied;
        }
        if create {
            match self.tombstones.position(&canonical) {
                Some(i) => {
                    self.tombstones.remove_at(i);
                },
                None => {
                    assert(self.tombstones@.remove(canonical@) =~= self.tombstones@);
                },
            }
            assert(self.hidden() =~= old(self).hidden().remove(canonical@));
            if found {
                self.ensure_count(&canonical);
                assert(self.alias_of() =~= old(self).alias_of());
                OpenPlan::Open { canonical, readable, writable, truncate: true }
            } else {
                assert(self.alias_of() =~= old(self).alias_of());
                OpenPlan::Create { canonical, readable, writable }
            }
        } else {
            if found {
                let truncate = flags.contains(OpenFlags::trunc());
                self.ensure_count(&canonical);
                assert(self.alias_of() =~= old(self).alias_of());
                OpenPlan::Open { canonical, readable, writable, truncate }
            } else {
                OpenPlan::Denied
            }
        }
    }

    /// Records that the file `canonical` was just created, with one name.
    pub fn file_created(&mut self, canonical: &String)
        requires
            old(self).wf(),
        ensures
            final(self).wf(),
            final(self).alias_of() == old(self).alias_of(),
            final(self).hidden() == old(self).hidden(),
            final(self).counts() == old(self).counts().insert(canonical@, 1),
    {
        match self.nlinks.position(canonical) {
            Some(i) => {
                self.nlinks.set_at(i, 1);
            },
            None => {
                self.nlinks.insert_new(canonical.clone(), 1);
            },
        }
        assert(self.alias_of() =~= old(self).alias_of());
    }

    /// Makes `new_name` a further name of the file that `old_name` names.
    /// `old_found` tells whether the directory holds `resolve_name(old_name)`
    /// and `new_found` whether it holds `new_name`. Returns 0 on success and
    /// -1 when the link is refused.
    pub fn link_file(&mut self, old_name: &str, new_name: &str, old_found: bool, new_found: bool) -> (r: isize)
        requires
            old(self).wf(),
            link_allowed(*old(self), old_name@, new_name@, old_found, new_found) ==> old(self).nlink_view(
                old(self).resolves_to(old_name@),
            ) < u32::MAX,
        ensures
            final(self).wf(),
            link_step(*old(self), *final(self), old_name@, new_name@, old_found, new_found),
            r == if link_allowed(*old(self), old_name@, new_name@, old_found, new_found) {
                0isize
            } else {
                -1isize
            },
    {
        let canonical = self.resolve_name(old_name);
        if !old_found {
            return -1;
        }
        let new_s = String::from_str(new_name);
        proof {
            self.lemma_alias_view(new_name@);
            self.lemma_alias_view(old_name@);
        }
        let target = self.aliases.has_value(&new_s);
        proof {
            if target {
                let k = choose|key: Seq<char>|
                    #[trigger] self.aliases@.contains_key(key) && self.aliases@[key]@ == new_s@;
                self.lemma_alias_view(k);
            }
            if self.is_alias_target(new_name@) {
                let k = choose|a: Seq<char>|
                    #[trigger] self.alias_of().contains_key(a) && self.alias_of()[a] == new_name@;
                self.lemma_alias_view(k);
            }
        }
        if self.tombstones.position(&canonical).is_some() || self.aliases.position(&new_s).is_some()
            || self.tombstones.position(&new_s).is_some() || new_found || new_s == canonical
            || target {
            return -1;
        }
        let ghost pre = *self;
        let c2 = canonical.clone();
        self.aliases.insert_new(new_s, c2);
        proof {
            pre.lemma_alias_insert(self, new_name@, c2);
        }
        match self.nlinks.position(&canonical) {
            Some(i) => {
                let v = *self.nlinks.value_at(i);
                self.nlinks.set_at(i, v + 1);
            },
            None => {
                self.nlinks.insert_new(canonical, 2);
            },
        }
        proof {
            assert forall|a: Seq<char>| #[trigger] self.aliases@.contains_key(a) implies !self.aliases@.contains_key(
                self.aliases@[a]@,
            ) by {
                if a != new_name@ {
                    assert(pre.aliases@.contains_key(a));
                    pre.lemma_alias_view(a);
                }
            }
        }
        0
    }

    /// Removes the name `name`. An alias is dropped; a canonical name is
    /// hidden when `found` tells that the directory holds it. Either way the
    /// file's count goes down, but not below 1. Returns 0 on success and -1
    /// when nothing is removed.
    pub fn unlink_file(&mut self, name: &str, found: bool) -> (r: isize)
        requires
            old(self).wf(),
        ensures
            final(self).wf(),
            unlink_step(*old(self), *final(self), name@, found),
            r == if unlink_allowed(*old(self), name@, found) {
                0isize
            } else {
                -1isize
            },
    {
        let name_s = String::from_str(name);
        proof {
            self.lemma_alias_view(name@);
        }
        let ghost pre = *self;
        match self.aliases.position(&name_s) {
            Some(i) => {
                let canonical = self.aliases.remove_at(i);
                proof {
                    pre.lemma_alias_remove(self, name@);
                    assert forall|a: Seq<char>| #[trigger] self.aliases@.contains_key(a) implies !self.aliases@.contains_key(
                        self.aliases@[a]@,
                    ) by {
                        assert(pre.aliases@.contains_key(a));
                    }
                }
                match self.nlinks.position(&canonical) {
                    Some(j) => {
                        let cnt = *self.nlinks.value_at(j);
                        if cnt > 1 {
                            self.nlinks.set_at(j, cnt - 1);
                        }
                    },
                    None => {},
                }
                return 0;
            },
            None => {},
        }
        let canonical = self.resolve_name(name);
        if !found || self.tombstones.position(&canonical).is_some() {
            return -1;
        }
        self.tombstones.insert_new(canonical.clone(), ());
        match self.nlinks.position(&canonical) {
            Some(j) => {
                let cnt = *self.nlinks.value_at(j);
                if cnt > 1 {
                    self.nlinks.set_at(j, cnt - 1);
                } else {
                    assert(self.nlinks@.insert(canonical@, 1u32) =~= self.nlinks@);
                }
            },
            None => {
                self.nlinks.insert_new(canonical, 1);
            },
        }
        assert(self.alias_of() =~= pre.alias_of());
        0
    }
}

/// Every file has at least one name: the count seen for any canonical name
/// is at least 1.
pub proof fn lemma_nlink_at_least_one(s: LinkState, canonical: Seq<char>)
    requires
        s.wf(),
    ensures
        s.nlink_view(canonical) >= 1,
{
}

/// After a successful link, the new name and the old name stand for the
/// same canonical file, and that file has one more name.
pub proof fn lemma_link_names_same_file(
    pre: LinkState,
    post: LinkState,
    old_name: Seq<char>,
    new_name: Seq<char>,
    old_found: bool,
    new_found: bool,
)
    requires
        pre.wf(),
        link_allowed(pre, old_name, new_name, old_found, new_found),
        pre.nlink_view(pre.resolves_to(old_name)) < u32::MAX,
        link_step(pre, post, old_name, new_name, old_found, new_found),
    ensures
        post.resolves_to(new_name) == pre.resolves_to(old_name),
        post.resolves_to(old_name) == pre.resolves_to(old_name),
        post.nlink_view(pre.resolves_to(old_name)) == pre.nlink_view(pre.resolves_to(old_name)) + 1,
{
    assert(old_name != new_name);
}

/// Unlinking the name that a link just added succeeds and undoes the link:
/// the aliases, the hidden names and every file's count are as before.
pub proof fn lemma_unlink_undoes_link(
    s0: LinkState,
    s1: LinkState,
    s2: LinkState,
    old_name: Seq<char>,
    new_name: Seq<char>,
    old_found: bool,
    new_found: bool,
    found: bool,
)
    requires
        s0.wf(),
        link_allowed(s0, old_name, new_name, old_found, new_found),
        s0.nlink_view(s0.resolves_to(old_name)) < u32::MAX,
        link_step(s0, s1, old_name, new_name, old_found, new_found),
        unlink_step(s1, s2, new_name, found),
    ensures
        unlink_allowed(s1, new_name, found),
        s2.alias_of() == s0.alias_of(),
        s2.hidden() == s0.hidden(),
        forall|c: Seq<char>| s2.nlink_view(c) == s0.nlink_view(c),
{
    let c = s0.resolves_to(old_name);
    assert(s1.alias_of().contains_key(new_name));
    assert(s1.alias_of()[new_name] == c);
    assert(s2.alias_of() =~= s0.alias_of());
    assert forall|x: Seq<char>| s2.nlink_view(x) == s0.nlink_view(x) by {
        if x == c {
            assert(s1.counts()[c] == s0.nlink_view(c) + 1);
            assert(s0.nlink_view(c) >= 1);
        }
    }
}

/// Unlinking a canonical name hides it: an `open` by that name without
/// `CREATE` is refused, whatever the directory holds.
pub proof fn lemma_unlink_hides_name(
    s0: LinkState,
    s1: LinkState,
    name: Seq<char>,
    found: bool,
    flags: OpenFlags,
    found_after: bool,
)
    requires
        s0.wf(),
        !s0.alias_of().contains_key(name),
        unlink_allowed(s0, name, found),
        unlink_step(s0, s1, name, found),
        !creates(flags),
    ensures
        open_denied(s1, name, flags, found_after),
{
    assert(!s1.alias_of().contains_key(name));
    assert(s1.hidden().contains(name));
}

/// Aliases outlive the unlink of their canonical name: they still lead to
/// it, and an `open` through them is not refused while the directory holds
/// the file.
pub proof fn lemma_alias_outlives_unlink(
    s0: LinkState,
    s1: LinkState,
    name: Seq<char>,
    found: bool,
    alias: Seq<char>,
    flags: OpenFlags,
)
    requires
        s0.wf(),
        !s0.alias_of().contains_key(name),
        unlink_step(s0, s1, name, found),
        s0.alias_of().contains_key(alias),
        s0.alias_of()[alias] == name,
    ensures
        s1.resolves_to(alias) == name,
        !open_denied(s1, alias, flags, true),
{
}

/// `CREATE` lifts the hiding: after an `open` with `CREATE`, an `open` of
/// the same name without it is refused only when the directory lacks the
/// file.
pub proof fn lemma_create_unhides(
    s0: LinkState,
    s1: LinkState,
    name: Seq<char>,
    flags: OpenFlags,
    found: bool,
    flags_after: OpenFlags,
    found_after: bool,
)
    requires
        s0.wf(),
        creates(flags),
        open_step(s0, s1, name, flags, found),
    ensures
        s1.resolves_to(name) == s0.resolves_to(name),
        open_denied(s1, name, flags_after, found_after) == (!creates(flags_after) && !found_after),
{
}

/// A successful unlink takes one name from its file: the file's count goes
/// down by one, but not below 1, whether the name was an alias or the
/// canonical one; no other file's count changes.
pub proof fn lemma_unlink_lowers_count(pre: LinkState, post: LinkState, name: Seq<char>, found: bool)
    requires
        pre.wf(),
        unlink_allowed(pre, name, found),
        unlink_step(pre, post, name, found),
    ensures
        post.nlink_view(pre.resolves_to(name)) == if pre.nlink_view(pre.resolves_to(name)) > 1 {
            pre.nlink_view(pre.resolves_to(name)) - 1
        } else {
            1
        },
        forall|x: Seq<char>| x != pre.resolves_to(name) ==> post.nlink_view(x) == pre.nlink_view(x),
{
}

} // verus!
