use vstd::prelude::*;
use vstd::multiset::Multiset;

use crate::order::{lemma_sorted_unique, pairs_sorted, pairs_view, sort_pairs, Named};

use crate::text::{
    chars_have, chars_of, find_char, first_index_of, lemma_first_index, push_char, split_once, string_from,
    string_from_range, sub_chars, trim, trim_end, trim_start, trimmed_chars,
};

verus! {

/// Why a block id was refused.
#[derive(Debug, Clone, Copy, PartialEq, Eq, Structural)]
pub enum BlockIdErrorKind {
    Empty,
    EmptyNamespace,
    EmptyPath,
    ExtraColon,
    InvalidNamespace,
    InvalidPath,
}

/// A refused block id: the reason and the trimmed input.
#[derive(Debug, Clone)]
pub struct BlockIdError {
    pub kind: BlockIdErrorKind,
    pub input: String,
}

/// The message of a refused block id.
pub open spec fn block_id_message(kind: BlockIdErrorKind, input: Seq<char>) -> Seq<char> {
    match kind {
        BlockIdErrorKind::Empty => "block id is empty"@,
        BlockIdErrorKind::EmptyNamespace => "block id '"@ + input + "' has an empty namespace"@,
        BlockIdErrorKind::EmptyPath => "block id '"@ + input + "' has an empty path"@,
        BlockIdErrorKind::ExtraColon => "block id '"@ + input + "' contains more than one ':'"@,
        BlockIdErrorKind::InvalidNamespace => "block id '"@ + input + "' has invalid characters in its namespace"@,
        BlockIdErrorKind::InvalidPath => "block id '"@ + input + "' has invalid characters in its path"@,
    }
}

impl BlockIdError {
    /// What went wrong, in words.
    pub fn message(&self) -> (r: String)
        ensures
            r@ == block_id_message(self.kind, self.input@),
    {
        let input = self.input.as_str();
        match self.kind {
            BlockIdErrorKind::Empty => string_from(&chars_of("block id is empty")),
            BlockIdErrorKind::EmptyNamespace => crate::text::surround("block id '", input, "' has an empty namespace"),
            BlockIdErrorKind::EmptyPath => crate::text::surround("block id '", input, "' has an empty path"),
            BlockIdErrorKind::ExtraColon => crate::text::surround("block id '", input, "' contains more than one ':'"),
            BlockIdErrorKind::InvalidNamespace => crate::text::surround(
                "block id '",
                input,
                "' has invalid characters in its namespace",
            ),
            BlockIdErrorKind::InvalidPath => crate::text::surround(
                "block id '",
                input,
                "' has invalid characters in its path",
            ),
        }
    }
}

pub open spec fn is_namespace_char(c: char) -> bool {
    ('a' <= c && c <= 'z') || ('0' <= c && c <= '9') || c == '_' || c == '-' || c == '.'
}

pub open spec fn is_path_char(c: char) -> bool {
    is_namespace_char(c) || c == '/'
}

pub open spec fn all_namespace_chars(s: Seq<char>) -> bool {
    forall|i: int| 0 <= i < s.len() ==> is_namespace_char(#[trigger] s[i])
}

pub open spec fn all_path_chars(s: Seq<char>) -> bool {
    forall|i: int| 0 <= i < s.len() ==> is_path_char(#[trigger] s[i])
}

/// The namespace of ids written without one.
pub open spec fn default_namespace() -> Seq<char> {
    seq!['m', 'i', 'n', 'e', 'c', 'r', 'a', 'f', 't']
}

/// Namespace and path of a trimmed id: split at the first ':', or the default
/// namespace with the whole input as path.
pub open spec fn id_parts(t: Seq<char>) -> (Seq<char>, Seq<char>) {
    match split_once(t, ':') {
        Some(parts) => parts,
        None => (default_namespace(), t),
    }
}

/// What `BlockId::parse` gives for an input: the canonical `namespace:path`
/// form or the first rule the input breaks.
pub open spec fn parse_block_id(input: Seq<char>) -> Result<Seq<char>, BlockIdErrorKind> {
    let t = trim(input);
    let ns = id_parts(t).0;
    let path = id_parts(t).1;
    if t.len() == 0 {
        Err(BlockIdErrorKind::Empty)
    } else if ns.len() == 0 {
        Err(BlockIdErrorKind::EmptyNamespace)
    } else if path.len() == 0 {
        Err(BlockIdErrorKind::EmptyPath)
    } else if path.contains(':') {
        Err(BlockIdErrorKind::ExtraColon)
    } else if !all_namespace_chars(ns) {
        Err(BlockIdErrorKind::InvalidNamespace)
    } else if !all_path_chars(path) {
        Err(BlockIdErrorKind::InvalidPath)
    } else {
        Ok(ns + seq![':'] + path)
    }
}

/// An id in canonical form: a non-empty namespace, one ':', a non-empty path,
/// each made of the allowed characters.
pub open spec fn is_canonical_id(s: Seq<char>) -> bool {
    match first_index_of(s, ':') {
        Some(k) => 0 < k && k < s.len() - 1 && all_namespace_chars(s.take(k)) && all_path_chars(
            s.skip(k + 1),
        ),
        None => false,
    }
}

/// `BlockId::namespace` of an id text: the part before the first ':', or empty.
pub open spec fn id_namespace(s: Seq<char>) -> Seq<char> {
    match first_index_of(s, ':') {
        Some(k) => s.take(k),
        None => Seq::empty(),
    }
}

/// `BlockId::path` of an id text: the part after the first ':', or all of it.
pub open spec fn id_path(s: Seq<char>) -> Seq<char> {
    match first_index_of(s, ':') {
        Some(k) => s.skip(k + 1),
        None => s,
    }
}

/// A namespaced block identifier such as `minecraft:stone`, stored in its
/// canonical `namespace:path` form.
#[derive(Debug, Clone, PartialEq, Eq, Hash, PartialOrd, Ord)]
pub struct BlockId(String);

impl View for BlockId {
    type V = Seq<char>;

    closed spec fn view(&self) -> Seq<char> {
        self.0@
    }
}

impl Named for BlockId {
    open spec fn name_view(&self) -> Seq<char> {
        self@
    }

    fn name_str(&self) -> (r: &str) {
        self.as_str()
    }
}

pub fn check_namespace_char(c: char) -> (r: bool)
    ensures
        r == is_namespace_char(c),
{
    ('a' <= c && c <= 'z') || ('0' <= c && c <= '9') || c == '_' || c == '-' || c == '.'
}

pub fn check_path_char(c: char) -> (r: bool)
    ensures
        r == is_path_char(c),
{
    check_namespace_char(c) || c == '/'
}

fn check_all_namespace_chars(v: &Vec<char>) -> (r: bool)
    ensures
        r == all_namespace_chars(v@),
{
    let mut i: usize = 0;
    while i < v.len()
        invariant
            i <= v.len(),
            all_namespace_chars(v@.take(i as int)),
        decreases v.len() - i,
    {
        if !check_namespace_char(v[i]) {
            assert(!is_namespace_char(v@[i as int]));
            return false;
        }
        assert(v@.take(i + 1) =~= v@.take(i as int).push(v@[i as int]));
        i += 1;
    }
    assert(v@.take(i as int) =~= v@);
    true
}

fn check_all_path_chars(v: &Vec<char>) -> (r: bool)
    ensures
        r == all_path_chars(v@),
{
    let mut i: usize = 0;
    while i < v.len()
        invariant
            i <= v.len(),
            all_path_chars(v@.take(i as int)),
        decreases v.len() - i,
    {
        if !check_path_char(v[i]) {
            assert(!is_path_char(v@[i as int]));
            return false;
        }
        assert(v@.take(i + 1) =~= v@.take(i as int).push(v@[i as int]));
        i += 1;
    }
    assert(v@.take(i as int) =~= v@);
    true
}

/// The canonical form that parsing produces has no white space at its ends,
/// exactly one ':', and parses to itself.
pub proof fn lemma_canonical_parts(ns: Seq<char>, path: Seq<char>)
    requires
        ns.len() > 0,
        path.len() > 0,
        all_namespace_chars(ns),
        all_path_chars(path),
    ensures
        ({
            let s = ns + seq![':'] + path;
            &&& first_index_of(s, ':') == Some(ns.len() as int)
            &&& s.take(ns.len() as int) == ns
            &&& s.skip(ns.len() as int + 1) == path
            &&& trim(s) == s
            &&& is_canonical_id(s)
            &&& id_namespace(s) == ns
            &&& id_path(s) == path
        }),
{
    let s = ns + seq![':'] + path;
    assert(s[ns.len() as int] == ':');
    assert forall|j: int| 0 <= j < ns.len() implies s[j] != ':' by {
        assert(s[j] == ns[j]);
        assert(is_namespace_char(ns[j]));
    }
    lemma_first_index(s, ':', ns.len() as int);
    assert(s.take(ns.len() as int) =~= ns);
    assert(s.skip(ns.len() as int + 1) =~= path);
    assert(s[0] == ns[0]);
    assert(is_namespace_char(ns[0]));
    assert(trim_start(s) == s);
    assert(s.last() == path.last());
    assert(is_path_char(path[path.len() - 1]));
    assert(trim_end(s) == s);
}

/// Parsing is idempotent: a parsed id parses to itself.
pub proof fn lemma_parse_canonical(input: Seq<char>)
    ensures
        parse_block_id(input) matches Ok(s) ==> is_canonical_id(s) && parse_block_id(s) == Ok::<Seq<char>, BlockIdErrorKind>(s),
{
    if let Ok(s) = parse_block_id(input) {
        let t = trim(input);
        let ns = id_parts(t).0;
        let path = id_parts(t).1;
        lemma_canonical_parts(ns, path);
        assert(s == ns + seq![':'] + path);
        assert(!path.contains(':'));
        assert(id_parts(s) == (ns, path));
    }
}

impl BlockId {
    pub fn parse(input: &str) -> (r: Result<BlockId, BlockIdError>)
        ensures
            match r {
                Ok(id) => parse_block_id(input@) == Ok::<Seq<char>, BlockIdErrorKind>(id@) && is_canonical_id(id@),
                Err(e) => parse_block_id(input@) == Err::<Seq<char>, BlockIdErrorKind>(e.kind) && e.input@ == trim(input@),
            },
    {
        let t = trimmed_chars(input);
        if t.len() == 0 {
            return Err(BlockIdError { kind: BlockIdErrorKind::Empty, input: string_from(&t) });
        }
        let ghost parts = id_parts(t@);
        let (ns, path) = match find_char(&t, ':') {
            Some(k) => {
                let ns = sub_chars(&t, 0, k);
                let path = sub_chars(&t, k + 1, t.len());
                assert(t@.take(k as int) == t@.subrange(0, k as int));
                assert(t@.skip(k + 1) == t@.subrange(k + 1, t@.len() as int));
                (ns, path)
            },
            None => {
                let ns = vec!['m', 'i', 'n', 'e', 'c', 'r', 'a', 'f', 't'];
                assert(ns@ == default_namespace());
                (ns, sub_chars(&t, 0, t.len()))
            },
        };
        assert(t@.subrange(0, t@.len() as int) == t@);
        assert(ns@ == parts.0 && path@ == parts.1);
        if ns.len() == 0 {
            return Err(
                BlockIdError { kind: BlockIdErrorKind::EmptyNamespace, input: string_from(&t) },
            );
        }
        if path.len() == 0 {
            return Err(BlockIdError { kind: BlockIdErrorKind::EmptyPath, input: string_from(&t) });
        }
        if chars_have(&path, ':') {
            return Err(BlockIdError { kind: BlockIdErrorKind::ExtraColon, input: string_from(&t) });
        }
        if !check_all_namespace_chars(&ns) {
            return Err(
                BlockIdError { kind: BlockIdErrorKind::InvalidNamespace, input: string_from(&t) },
            );
        }
        if !check_all_path_chars(&path) {
            return Err(
                BlockIdError { kind: BlockIdErrorKind::InvalidPath, input: string_from(&t) },
            );
        }
        let mut s = string_from(&ns);
        push_char(&mut s, ':');
        let mut i: usize = 0;
        while i < path.len()
            invariant
                i <= path.len(),
                s@ == ns@ + seq![':'] + path@.take(i as int),
            decreases path.len() - i,
        {
            push_char(&mut s, path[i]);
            assert(path@.take(i + 1) == path@.take(i as int).push(path@[i as int]));
            assert(s@ =~= ns@ + seq![':'] + path@.take(i + 1));
            i += 1;
        }
        assert(path@.take(i as int) == path@);
        proof {
            lemma_canonical_parts(ns@, path@);
        }
        Ok(BlockId(s))
    }

    pub fn as_str(&self) -> (r: &str)
        ensures
            r@ == self@,
    {
        self.0.as_str()
    }

    /// The part before the first ':'.
    pub fn namespace(&self) -> (r: String)
        ensures
            r@ == id_namespace(self@),
    {
        let v = chars_of(self.0.as_str());
        match find_char(&v, ':') {
            Some(k) => {
                assert(v@.take(k as int) == v@.subrange(0, k as int));
                string_from_range(&v, 0, k)
            },
            None => String::new(),
        }
    }

    /// The part after the first ':', or the whole id without one.
    pub fn path(&self) -> (r: String)
        ensures
            r@ == id_path(self@),
    {
        let v = chars_of(self.0.as_str());
        match find_char(&v, ':') {
            Some(k) => {
                assert(v@.skip(k + 1) == v@.subrange(k + 1, v@.len() as int));
                string_from_range(&v, k + 1, v.len())
            },
            None => self.0.clone(),
        }
    }

    /// Two ids name the same block.
    pub fn same(&self, other: &BlockId) -> (r: bool)
        ensures
            r == (self@ == other@),
    {
        self.0 == other.0
    }

    /// A copy of this id.
    pub fn copy(&self) -> (r: BlockId)
        ensures
            r@ == self@,
    {
        BlockId(self.0.clone())
    }
}

/// A block state: a block name and its state properties (`facing`,
/// `half`, ...), each property name given once ([`BlockState::wf`]).
#[derive(Debug, Clone, PartialEq, Eq)]
pub struct BlockState {
    pub name: String,
    pub properties: Vec<(String, String)>,
}

/// What a block state stands for: its name and the set of its properties,
/// in no particular order.
pub open spec fn state_view(s: BlockState) -> (Seq<char>, Multiset<(Seq<char>, Seq<char>)>) {
    (s.name@, pairs_view(s.properties@).to_multiset())
}

impl BlockState {
    /// Each property is named once.
    pub open spec fn wf(&self) -> bool {
        crate::lookup::keys_distinct(self.properties@)
    }

    pub fn new(name: String, properties: Vec<(String, String)>) -> (r: BlockState)
        requires
            crate::lookup::keys_distinct(properties@),
        ensures
            r.wf(),
            r.name == name,
            r.properties == properties,
    {
        BlockState { name, properties }
    }

    /// The value of property `name`, if the state has it.
    pub fn property(&self, name: &str) -> (r: Option<String>)
        ensures
            match r {
                Some(v) => exists|i: int|
                    0 <= i < self.properties@.len() && #[trigger] self.properties@[i].0@ == name@
                        && self.properties@[i].1@ == v@,
                None => forall|i: int|
                    0 <= i < self.properties@.len() ==> #[trigger] self.properties@[i].0@ != name@,
            },
    {
        let mut i: usize = 0;
        while i < self.properties.len()
            invariant
                i <= self.properties.len(),
                forall|j: int| 0 <= j < i ==> #[trigger] self.properties@[j].0@ != name@,
            decreases self.properties.len() - i,
        {
            if crate::text::str_eq(self.properties[i].0.as_str(), name) {
                return Some(self.properties[i].1.clone());
            }
            i += 1;
        }
        None
    }
}

/// A block state identity usable as a lookup key: block name plus its
/// properties sorted by name, then value.
#[derive(Debug, Clone, PartialEq, Eq, Hash)]
pub struct BlockStateKey {
    name: String,
    properties: Vec<(String, String)>,
}

impl View for BlockStateKey {
    type V = (Seq<char>, Seq<(Seq<char>, Seq<char>)>);

    closed spec fn view(&self) -> (Seq<char>, Seq<(Seq<char>, Seq<char>)>) {
        (self.name@, pairs_view(self.properties@))
    }
}

/// The key of a block state: its name and its properties in ascending order.
pub open spec fn is_key_of(k: (Seq<char>, Seq<(Seq<char>, Seq<char>)>), name: Seq<char>, props: Multiset<(Seq<char>, Seq<char>)>) -> bool {
    &&& k.0 == name
    &&& pairs_sorted(k.1)
    &&& k.1.to_multiset() == props
}

impl BlockStateKey {
    pub fn new(name: String, properties: Vec<(String, String)>) -> (r: BlockStateKey)
        ensures
            is_key_of(r@, name@, pairs_view(properties@).to_multiset()),
    {
        let sorted = sort_pairs(properties);
        BlockStateKey { name, properties: sorted }
    }

    pub fn name(&self) -> (r: &str)
        ensures
            r@ == self@.0,
    {
        self.name.as_str()
    }

    pub fn properties(&self) -> (r: &[(String, String)])
        ensures
            pairs_view(r@) == self@.1,
    {
        self.properties.as_slice()
    }

    /// Two keys are the same.
    pub fn same(&self, other: &BlockStateKey) -> (r: bool)
        ensures
            r == (self@ == other@),
    {
        if self.name != other.name {
            return false;
        }
        if self.properties.len() != other.properties.len() {
            assert(pairs_view(self.properties@).len() != pairs_view(other.properties@).len());
            return false;
        }
        let mut i: usize = 0;
        while i < self.properties.len()
            invariant
                self.properties.len() == other.properties.len(),
                i <= self.properties.len(),
                forall|j: int| 0 <= j < i ==> #[trigger] pairs_view(self.properties@)[j] == pairs_view(other.properties@)[j],
            decreases self.properties.len() - i,
        {
            if self.properties[i].0 != other.properties[i].0 || self.properties[i].1 != other.properties[i].1 {
                assert(pairs_view(self.properties@)[i as int] != pairs_view(other.properties@)[i as int]);
                return false;
            }
            i += 1;
        }
        assert(pairs_view(self.properties@) =~= pairs_view(other.properties@));
        true
    }

    /// A copy of this key.
    pub fn copy(&self) -> (r: BlockStateKey)
        ensures
            r@ == self@,
    {
        let mut props: Vec<(String, String)> = Vec::new();
        let mut i: usize = 0;
        while i < self.properties.len()
            invariant
                i <= self.properties.len(),
                pairs_view(props@) =~= pairs_view(self.properties@).take(i as int),
            decreases self.properties.len() - i,
        {
            props.push((self.properties[i].0.clone(), self.properties[i].1.clone()));
            assert(pairs_view(self.properties@).take(i + 1) =~= pairs_view(self.properties@).take(i as int).push(pairs_view(self.properties@)[i as int]));
            i += 1;
        }
        assert(pairs_view(self.properties@).take(i as int) =~= pairs_view(self.properties@));
        BlockStateKey { name: self.name.clone(), properties: props }
    }
}

/// The key of a block state.
pub fn state_key(state: &BlockState) -> (r: BlockStateKey)
    ensures
        is_key_of(r@, state_view(*state).0, state_view(*state).1),
{
    let mut props: Vec<(String, String)> = Vec::new();
    let mut i: usize = 0;
    while i < state.properties.len()
        invariant
            i <= state.properties.len(),
            pairs_view(props@) =~= pairs_view(state.properties@).take(i as int),
        decreases state.properties.len() - i,
    {
        props.push((state.properties[i].0.clone(), state.properties[i].1.clone()));
        assert(pairs_view(state.properties@).take(i + 1) =~= pairs_view(state.properties@).take(i as int).push(pairs_view(state.properties@)[i as int]));
        i += 1;
    }
    assert(pairs_view(state.properties@).take(i as int) =~= pairs_view(state.properties@));
    BlockStateKey::new(state.name.clone(), props)
}

/// A key identifies a block state: two states have equal keys exactly when
/// they have the same name and the same properties, whatever the order in
/// which the properties were given.
pub proof fn lemma_key_identifies_state(
    k1: (Seq<char>, Seq<(Seq<char>, Seq<char>)>),
    n1: Seq<char>,
    p1: Multiset<(Seq<char>, Seq<char>)>,
    k2: (Seq<char>, Seq<(Seq<char>, Seq<char>)>),
    n2: Seq<char>,
    p2: Multiset<(Seq<char>, Seq<char>)>,
)
    requires
        is_key_of(k1, n1, p1),
        is_key_of(k2, n2, p2),
    ensures
        (k1 == k2) == (n1 == n2 && p1 == p2),
{
    if n1 == n2 && p1 == p2 {
        lemma_sorted_unique(k1.1, k2.1);
    }
}

} // verus!
