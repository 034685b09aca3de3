//! Paths as byte strings, and the few things the synchroniser reads from them:
//! the base name, whether a name is hidden, and how a directory and an entry
//! name make the entry's path.

use vstd::prelude::*;
use vstd::string::StringSliceAdditionalSpecFns;

verus! {

/// The byte that separates the components of a path.
pub const SEPARATOR: u8 = 47;

/// The byte that marks a hidden name when it comes first.
pub const HIDDEN_MARKER: u8 = 46;

/// Length of `path` once the separators at its end are dropped.
pub open spec fn trimmed_len(path: Seq<u8>) -> nat
    decreases path.len(),
{
    if path.len() > 0 && path.last() == SEPARATOR {
        trimmed_len(path.drop_last())
    } else {
        path.len()
    }
}

/// Where the last component of `path` begins, for a `path` taken up to its
/// end: the least index from which no separator follows.
pub open spec fn name_start(path: Seq<u8>) -> nat
    decreases path.len(),
{
    if path.len() == 0 || path.last() == SEPARATOR {
        path.len()
    } else {
        name_start(path.drop_last())
    }
}

/// The base name of `path`: its final component, separators at the end of the
/// path set aside. It is empty where the path holds nothing but separators.
pub open spec fn base_name(path: Seq<u8>) -> Seq<u8> {
    let end = trimmed_len(path) as int;
    path.subrange(name_start(path.take(end)) as int, end)
}

/// The name `.`, by which a directory lists itself.
pub open spec fn is_self_name(name: Seq<u8>) -> bool {
    name.len() == 1 && name[0] == HIDDEN_MARKER
}

/// The name `..`, by which a directory lists its parent.
pub open spec fn is_parent_name(name: Seq<u8>) -> bool {
    name.len() == 2 && name[0] == HIDDEN_MARKER && name[1] == HIDDEN_MARKER
}

/// A name is hidden when it begins with the marker.
pub open spec fn is_hidden(name: Seq<u8>) -> bool {
    name.len() > 0 && name[0] == HIDDEN_MARKER
}

/// What a directory can list as the name of an entry: one component, not
/// empty, that names neither the directory itself nor its parent.
pub open spec fn valid_name(name: Seq<u8>) -> bool {
    &&& name.len() > 0
    &&& forall|i: int| 0 <= i < name.len() ==> name[i] != SEPARATOR
    &&& !is_self_name(name)
    &&& !is_parent_name(name)
}

/// The path of the entry `name` of the directory `dir`: one separator is put
/// between the two unless `dir` is empty or ends in one.
pub open spec fn join(dir: Seq<u8>, name: Seq<u8>) -> Seq<u8> {
    if dir.len() == 0 || dir.last() == SEPARATOR {
        dir + name
    } else {
        dir.push(SEPARATOR) + name
    }
}

/// `path` is an entry of the directory `dir`: the directory's path joined
/// with a valid name, which is then the base name of `path`.
pub open spec fn is_child(dir: Seq<u8>, path: Seq<u8>) -> bool {
    valid_name(base_name(path)) && path == join(dir, base_name(path))
}

/// ASCII upper-case letters folded to lower case, every other byte kept.
pub open spec fn fold_ascii(byte: u8) -> u8 {
    if 65 <= byte <= 90 {
        (byte + 32) as u8
    } else {
        byte
    }
}

/// Equality of two names up to the case of ASCII letters.
pub open spec fn equal_ignoring_ascii_case(a: Seq<u8>, b: Seq<u8>) -> bool {
    a.len() == b.len() && forall|i: int| 0 <= i < a.len() ==> fold_ascii(a[i]) == fold_ascii(b[i])
}

/// Whether two base names match under the case policy.
pub open spec fn names_match(a: Seq<u8>, b: Seq<u8>, case_sensitive: bool) -> bool {
    if case_sensitive {
        a == b
    } else {
        equal_ignoring_ascii_case(a, b)
    }
}

/// After `trimmed_len(path)` bytes nothing but separators follows, and the
/// byte before, if there is one, is none.
pub proof fn lemma_trimmed_len_is_the_end(path: Seq<u8>)
    ensures
        trimmed_len(path) <= path.len(),
        forall|i: int| trimmed_len(path) <= i < path.len() ==> path[i] == SEPARATOR,
        trimmed_len(path) > 0 ==> path[trimmed_len(path) - 1] != SEPARATOR,
    decreases path.len(),
{
    if path.len() > 0 && path.last() == SEPARATOR {
        lemma_trimmed_len_is_the_end(path.drop_last());
        assert forall|i: int| trimmed_len(path) <= i < path.len() implies path[i]
            == SEPARATOR by {
            if i < path.len() - 1 {
                assert(path[i] == path.drop_last()[i]);
            }
        }
        if trimmed_len(path) > 0 {
            assert(path[trimmed_len(path) - 1] == path.drop_last()[trimmed_len(path) - 1]);
        }
    }
}

/// From `name_start(path)` on the path holds no separator, and the byte
/// before, if there is one, is a separator.
pub proof fn lemma_name_start_is_the_start(path: Seq<u8>)
    ensures
        name_start(path) <= path.len(),
        forall|i: int| name_start(path) <= i < path.len() ==> path[i] != SEPARATOR,
        name_start(path) > 0 ==> path[name_start(path) - 1] == SEPARATOR,
    decreases path.len(),
{
    if path.len() > 0 && path.last() != SEPARATOR {
        lemma_name_start_is_the_start(path.drop_last());
        assert forall|i: int| name_start(path) <= i < path.len() implies path[i]
            != SEPARATOR by {
            if i < path.len() - 1 {
                assert(path[i] == path.drop_last()[i]);
            }
        }
        if name_start(path) > 0 {
            assert(path[name_start(path) - 1] == path.drop_last()[name_start(path) - 1]);
        }
    }
}

/// The base name is the last component of the path: it holds no separator,
/// it is followed by separators alone, and it begins the path or comes after
/// a separator. Unless it is empty, it comes to its end before a separator
/// or with the path.
pub proof fn lemma_base_name_is_last_component(path: Seq<u8>)
    ensures
        forall|i: int| 0 <= i < base_name(path).len() ==> base_name(path)[i] != SEPARATOR,
        exists|start: int, end: int|
            {
                &&& 0 <= start <= end <= path.len()
                &&& #[trigger] path.subrange(start, end) == base_name(path)
                &&& start > 0 ==> path[start - 1] == SEPARATOR
                &&& start < end ==> path[end - 1] != SEPARATOR
                &&& forall|i: int| end <= i < path.len() ==> path[i] == SEPARATOR
            },
{
    let end = trimmed_len(path) as int;
    lemma_trimmed_len_is_the_end(path);
    let trimmed = path.take(end);
    let start = name_start(trimmed) as int;
    lemma_name_start_is_the_start(trimmed);
    assert forall|i: int| 0 <= i < base_name(path).len() implies base_name(path)[i]
        != SEPARATOR by {
        assert(base_name(path)[i] == trimmed[start + i]);
    }
    if start > 0 {
        assert(path[start - 1] == trimmed[start - 1]);
    }
    assert(path.subrange(start, end) == base_name(path));
}

/// The last component of `prefix + name` begins where `name` does, when
/// `prefix` is empty or ends in a separator and `name` holds none.
proof fn lemma_name_start_after_prefix(prefix: Seq<u8>, name: Seq<u8>)
    requires
        prefix.len() == 0 || prefix.last() == SEPARATOR,
        forall|i: int| 0 <= i < name.len() ==> name[i] != SEPARATOR,
    ensures
        name_start(prefix + name) == prefix.len(),
    decreases name.len(),
{
    if name.len() > 0 {
        assert((prefix + name).drop_last() =~= prefix + name.drop_last());
        lemma_name_start_after_prefix(prefix, name.drop_last());
    }
}

/// The base name of an entry's path is the entry's name.
pub proof fn lemma_base_name_of_join(dir: Seq<u8>, name: Seq<u8>)
    requires
        valid_name(name),
    ensures
        base_name(join(dir, name)) == name,
        is_child(dir, join(dir, name)),
{
    let prefix = if dir.len() == 0 || dir.last() == SEPARATOR {
        dir
    } else {
        dir.push(SEPARATOR)
    };
    let path = join(dir, name);
    assert(path.take(path.len() as int) =~= path);
    lemma_name_start_after_prefix(prefix, name);
}

/// A path, as the bytes that the platform knows it by.
#[derive(Debug, PartialEq, Eq, PartialOrd, Ord, Hash)]
pub struct FilePath {
    pub bytes: Vec<u8>,
}

impl View for FilePath {
    type V = Seq<u8>;

    open spec fn view(&self) -> Seq<u8> {
        self.bytes@
    }
}

/// The paths that a list of `FilePath` holds, in order.
pub open spec fn path_views(paths: Seq<FilePath>) -> Seq<Seq<u8>> {
    Seq::new(paths.len(), |i: int| paths[i]@)
}

impl Clone for FilePath {
    fn clone(&self) -> (copy: Self)
        ensures
            copy@ == self@,
    {
        FilePath { bytes: copy_bytes(&self.bytes) }
    }
}

/// A fresh vector with the bytes of `bytes`.
pub fn copy_bytes(bytes: &Vec<u8>) -> (copy: Vec<u8>)
    ensures
        copy@ == bytes@,
{
    let mut copy: Vec<u8> = Vec::with_capacity(bytes.len());
    let mut i: usize = 0;
    while i < bytes.len()
        invariant
            i <= bytes.len(),
            copy@ == bytes@.take(i as int),
        decreases bytes.len() - i,
    {
        copy.push(bytes[i]);
        i += 1;
    }
    copy
}

/// Whether two byte strings are equal.
pub fn bytes_equal(a: &Vec<u8>, b: &Vec<u8>) -> (same: bool)
    ensures
        same == (a@ == b@),
{
    if a.len() != b.len() {
        return false;
    }
    let mut i: usize = 0;
    while i < a.len()
        invariant
            i <= a.len(),
            a.len() == b.len(),
            forall|k: int| 0 <= k < i ==> a@[k] == b@[k],
        decreases a.len() - i,
    {
        if a[i] != b[i] {
            return false;
        }
        i += 1;
    }
    assert(a@ =~= b@);
    true
}

/// Folds one byte as `fold_ascii` says.
pub fn fold_byte(byte: u8) -> (folded: u8)
    ensures
        folded == fold_ascii(byte),
{
    if 65 <= byte && byte <= 90 {
        byte + 32
    } else {
        byte
    }
}

/// Whether two names are equal up to the case of ASCII letters. Bytes
/// outside ASCII are compared as they stand.
pub fn bytes_equal_ignoring_ascii_case(a: &Vec<u8>, b: &Vec<u8>) -> (same: bool)
    ensures
        same == equal_ignoring_ascii_case(a@, b@),
{
    if a.len() != b.len() {
        return false;
    }
    let mut i: usize = 0;
    while i < a.len()
        invariant
            i <= a.len(),
            a.len() == b.len(),
            forall|k: int| 0 <= k < i ==> fold_ascii(a@[k]) == fold_ascii(b@[k]),
        decreases a.len() - i,
    {
        if fold_byte(a[i]) != fold_byte(b[i]) {
            return false;
        }
        i += 1;
    }
    true
}

/// Whether two base names match: byte for byte when `case_sensitive`, up to
/// the case of ASCII letters otherwise.
pub fn base_names_match(a: &Vec<u8>, b: &Vec<u8>, case_sensitive: bool) -> (matched: bool)
    ensures
        matched == names_match(a@, b@, case_sensitive),
{
    if case_sensitive {
        bytes_equal(a, b)
    } else {
        bytes_equal_ignoring_ascii_case(a, b)
    }
}

/// Whether `name` is hidden.
pub fn name_is_hidden(name: &Vec<u8>) -> (hidden: bool)
    ensures
        hidden == is_hidden(name@),
{
    name.len() > 0 && name[0] == HIDDEN_MARKER
}

/// Whether `name` can be the name of a directory's entry.
pub fn name_is_valid(name: &Vec<u8>) -> (valid: bool)
    ensures
        valid == valid_name(name@),
{
    if name.len() == 0 {
        return false;
    }
    if name[0] == HIDDEN_MARKER {
        if name.len() == 1 {
            return false;
        }
        if name.len() == 2 && name[1] == HIDDEN_MARKER {
            return false;
        }
    }
    let mut i: usize = 0;
    while i < name.len()
        invariant
            i <= name.len(),
            forall|k: int| 0 <= k < i ==> name@[k] != SEPARATOR,
        decreases name.len() - i,
    {
        if name[i] == SEPARATOR {
            return false;
        }
        i += 1;
    }
    true
}

impl FilePath {
    /// The path that `bytes` spell.
    pub fn new(bytes: Vec<u8>) -> (path: FilePath)
        ensures
            path@ == bytes@,
    {
        FilePath { bytes }
    }

    /// The path that `text` spells, in UTF-8.
    pub fn from_text(text: &str) -> (path: FilePath)
        ensures
            path@ == text.spec_bytes(),
    {
        let source = text.as_bytes();
        let mut bytes: Vec<u8> = Vec::with_capacity(source.len());
        let mut i: usize = 0;
        while i < source.len()
            invariant
                i <= source.len(),
                bytes@ == source@.take(i as int),
            decreases source.len() - i,
        {
            bytes.push(source[i]);
            i += 1;
        }
        FilePath { bytes }
    }

    /// The bytes of the path.
    pub fn as_bytes(&self) -> (bytes: &Vec<u8>)
        ensures
            bytes@ == self@,
    {
        &self.bytes
    }

    /// Whether the two paths are the same, byte for byte.
    pub fn same_as(&self, other: &FilePath) -> (same: bool)
        ensures
            same == (self@ == other@),
    {
        bytes_equal(&self.bytes, &other.bytes)
    }

    /// Where the base name lies in the path: from the first index up to, and
    /// without, the second.
    pub fn base_name_span(&self) -> (span: (usize, usize))
        ensures
            span.1 == trimmed_len(self@),
            span.0 == name_start(self@.take(span.1 as int)),
            span.0 <= span.1 <= self@.len(),
    {
        let ghost path = self@;
        let mut end: usize = self.bytes.len();
        assert(path.take(end as int) =~= path);
        while end > 0 && self.bytes[end - 1] == SEPARATOR
            invariant
                path == self@,
                end <= path.len(),
                trimmed_len(path) == trimmed_len(path.take(end as int)),
            decreases end,
        {
            assert(path.take(end as int).drop_last() =~= path.take(end - 1));
            end -= 1;
        }
        let ghost trimmed = path.take(end as int);
        let mut start: usize = end;
        assert(trimmed.take(start as int) =~= trimmed);
        while start > 0 && self.bytes[start - 1] != SEPARATOR
            invariant
                path == self@,
                trimmed == path.take(end as int),
                start <= end <= path.len(),
                name_start(trimmed) == name_start(trimmed.take(start as int)),
            decreases start,
        {
            assert(trimmed.take(start as int).drop_last() =~= trimmed.take(start - 1));
            start -= 1;
        }
        (start, end)
    }

    /// The base name of the path.
    pub fn base_name(&self) -> (name: Vec<u8>)
        ensures
            name@ == base_name(self@),
    {
        let (start, end) = self.base_name_span();
        let mut name: Vec<u8> = Vec::with_capacity(end - start);
        let mut i: usize = start;
        while i < end
            invariant
                start <= i <= end <= self@.len(),
                name@ == self@.subrange(start as int, i as int),
            decreases end - i,
        {
            name.push(self.bytes[i]);
            i += 1;
            assert(self@.subrange(start as int, i as int) =~= self@.subrange(
                start as int,
                i - 1,
            ).push(self@[i - 1]));
        }
        name
    }

    /// The path of the entry `name` of this directory.
    pub fn join(&self, name: &EntryName) -> (path: FilePath)
        ensures
            path@ == join(self@, name@),
            base_name(path@) == name@,
            is_child(self@, path@),
    {
        let mut bytes = copy_bytes(&self.bytes);
        let len = bytes.len();
        if len > 0 && bytes[len - 1] != SEPARATOR {
            bytes.push(SEPARATOR);
        }
        let ghost prefix = bytes@;
        let tail = name.as_bytes();
        let mut i: usize = 0;
        while i < tail.len()
            invariant
                i <= tail.len(),
                bytes@ == prefix + tail@.take(i as int),
            decreases tail.len() - i,
        {
            bytes.push(tail[i]);
            i += 1;
        }
        proof {
            assert(tail@.take(i as int) =~= tail@);
            lemma_base_name_of_join(self@, name@);
        }
        FilePath { bytes }
    }
}

/// The name of one entry of a directory, as the directory lists it. Every
/// value of this type holds a valid name.
#[derive(Debug, PartialEq, Eq, Hash)]
pub struct EntryName {
    bytes: Vec<u8>,
}

impl View for EntryName {
    type V = Seq<u8>;

    closed spec fn view(&self) -> Seq<u8> {
        self.bytes@
    }
}

impl Clone for EntryName {
    fn clone(&self) -> (copy: Self)
        ensures
            copy@ == self@,
    {
        proof {
            use_type_invariant(self);
        }
        EntryName { bytes: copy_bytes(&self.bytes) }
    }
}

impl EntryName {
    #[verifier::type_invariant]
    spec fn holds_valid_name(self) -> bool {
        valid_name(self.bytes@)
    }

    /// The entry name that `bytes` spell, if they spell one.
    pub fn new(bytes: Vec<u8>) -> (name: Option<EntryName>)
        ensures
            name.is_some() == valid_name(bytes@),
            name.is_some() ==> name.unwrap()@ == bytes@,
    {
        if name_is_valid(&bytes) {
            Some(EntryName { bytes })
        } else {
            None
        }
    }

    /// The entry name that `text` spells in UTF-8, if it spells one.
    pub fn from_text(text: &str) -> (name: Option<EntryName>)
        ensures
            name.is_some() == valid_name(text.spec_bytes()),
            name.is_some() ==> name.unwrap()@ == text.spec_bytes(),
    {
        EntryName::new(FilePath::from_text(text).bytes)
    }

    /// The bytes of the name, which are always those of a valid name.
    pub fn as_bytes(&self) -> (bytes: &Vec<u8>)
        ensures
            bytes@ == self@,
            valid_name(self@),
    {
        proof {
            use_type_invariant(self);
        }
        &self.bytes
    }

    /// Whether the name is hidden.
    pub fn is_hidden(&self) -> (hidden: bool)
        ensures
            hidden == is_hidden(self@),
    {
        name_is_hidden(&self.bytes)
    }
}

} // verus!
