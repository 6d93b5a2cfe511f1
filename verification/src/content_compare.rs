//! Comparison of two hash listings. A listing is a text whose lines start
//! with a fixed-width field: a separator row of dashes opens and closes the
//! list of hashes, a blank field stands for a directory, and any other field
//! is a hash.
use vstd::prelude::*;
use vstd::multiset::Multiset;
use vstd::string::StringSliceAdditionalSpecFns;

verus! {

broadcast use {
    vstd::array::group_array_axioms,
    vstd::seq_lib::group_to_multiset_ensures,
    vstd::multiset::group_multiset_axioms,
};

/// Width of the field at the start of every line.
pub const HASH_LEN: usize = 78;

/// The field at the start of a line.
pub type HashBytes = [u8; HASH_LEN];

/// Byte of the separator row at position `i`: dashes with one space.
pub open spec fn start_end_byte(i: int) -> u8 {
    if i == 64 {
        0x20u8
    } else {
        0x2du8
    }
}

/// The field marks the start or the end of the hash list.
pub open spec fn is_start_end_sep(s: Seq<u8>) -> bool {
    s.len() == HASH_LEN && forall|i: int| 0 <= i < HASH_LEN ==> #[trigger] s[i] == start_end_byte(i)
}

/// The field is blank: the line names a directory.
pub open spec fn is_dir_sep(s: Seq<u8>) -> bool {
    s.len() == HASH_LEN && forall|i: int| 0 <= i < HASH_LEN ==> #[trigger] s[i] == 0x20u8
}

/// What the start of a line says.
#[derive(Debug, Clone, Copy)]
pub enum Line {
    Hash(HashBytes),
    StartEnd,
    Dir,
}

/// Where the reading of a listing stands.
#[derive(Debug, Clone, Copy)]
pub enum State {
    NotStarted,
    Started,
    Ended,
}

/// What to do with a line.
#[derive(Debug, Clone, Copy)]
pub enum Action {
    /// Add the hash to the listing's collection.
    Put(HashBytes),
    /// Nothing to record.
    Skip,
    /// The hash list starts here.
    Start,
    /// The hash list ends here; no further line is read.
    Stop,
    /// A line where the hash list has not started: the listing is malformed.
    Reject(Line),
}

fn field_is_dir_sep(h: &HashBytes) -> (b: bool)
    ensures
        b == is_dir_sep(h@),
{
    let mut i: usize = 0;
    while i < HASH_LEN
        invariant
            i <= HASH_LEN,
            forall|j: int| 0 <= j < i ==> #[trigger] h@[j] == 0x20u8,
        decreases HASH_LEN - i,
    {
        if h[i] != 0x20u8 {
            return false;
        }
        i = i + 1;
    }
    true
}

fn field_is_start_end_sep(h: &HashBytes) -> (b: bool)
    ensures
        b == is_start_end_sep(h@),
{
    let mut i: usize = 0;
    while i < HASH_LEN
        invariant
            i <= HASH_LEN,
            forall|j: int| 0 <= j < i ==> #[trigger] h@[j] == start_end_byte(j),
        decreases HASH_LEN - i,
    {
        let expected: u8 = if i == 64 {
            0x20u8
        } else {
            0x2du8
        };
        if h[i] != expected {
            assert(h@[i as int] != start_end_byte(i as int));
            return false;
        }
        i = i + 1;
    }
    true
}

/// Reads the field at the start of `line`, which holds at least `HASH_LEN` bytes.
pub fn parse_line(line: &str) -> (res: Line)
    requires
        line.spec_bytes().len() >= HASH_LEN,
    ensures
        ({
            let field = line.spec_bytes().take(HASH_LEN as int);
            match res {
                Line::Dir => is_dir_sep(field),
                Line::StartEnd => is_start_end_sep(field),
                Line::Hash(h) => h@ == field && !is_dir_sep(field) && !is_start_end_sep(field),
            }
        }),
{
    let bytes = line.as_bytes();
    let mut hash: HashBytes = [0u8; HASH_LEN];
    let mut i: usize = 0;
    while i < HASH_LEN
        invariant
            i <= HASH_LEN,
            bytes@ == line.spec_bytes(),
            bytes@.len() >= HASH_LEN,
            forall|j: int| 0 <= j < i ==> #[trigger] hash@[j] == bytes@[j],
        decreases HASH_LEN - i,
    {
        hash[i] = bytes[i];
        i = i + 1;
    }
    assert(hash@ =~= line.spec_bytes().take(HASH_LEN as int));
    if field_is_dir_sep(&hash) {
        Line::Dir
    } else if field_is_start_end_sep(&hash) {
        Line::StartEnd
    } else {
        Line::Hash(hash)
    }
}

/// The reading state after a line, and what to do with the line.
pub fn step(state: State, line: Line) -> (res: (State, Action))
    ensures
        match (state, line) {
            (State::Started, Line::Hash(h)) => res == (State::Started, Action::Put(h)),
            (State::Started, Line::StartEnd) => res == (State::Ended, Action::Stop),
            (State::Started, Line::Dir) => res == (State::Started, Action::Skip),
            (State::NotStarted, Line::StartEnd) => res == (State::Started, Action::Start),
            _ => res == (state, Action::Reject(line)),
        },
{
    match state {
        State::Started => match line {
            Line::Hash(hash) => (State::Started, Action::Put(hash)),
            Line::StartEnd => (State::Ended, Action::Stop),
            Line::Dir => (State::Started, Action::Skip),
        },
        State::NotStarted => match line {
            Line::StartEnd => (State::Started, Action::Start),
            _ => (state, Action::Reject(line)),
        },
        State::Ended => (state, Action::Reject(line)),
    }
}

/// A collection that items can be put into.
pub trait PutSet<T> {
    /// The items put so far, in order.
    spec fn contents(&self) -> Seq<T>;

    /// `item` may be put.
    spec fn can_put(&self, item: T) -> bool;

    fn put(&mut self, item: T)
        requires
            old(self).can_put(item),
        ensures
            final(self).contents() == old(self).contents().push(item),
    ;
}

impl<T> PutSet<T> for Vec<T> {
    open spec fn contents(&self) -> Seq<T> {
        self@
    }

    open spec fn can_put(&self, item: T) -> bool {
        true
    }

    fn put(&mut self, item: T) {
        self.push(item);
    }
}

/// Whether two hashes are the same bytes.
pub fn hash_eq(a: &HashBytes, b: &HashBytes) -> (eq: bool)
    ensures
        eq == (*a == *b),
{
    let mut i: usize = 0;
    while i < HASH_LEN
        invariant
            i <= HASH_LEN,
            forall|j: int| 0 <= j < i ==> #[trigger] a@[j] == b@[j],
        decreases HASH_LEN - i,
    {
        if a[i] != b[i] {
            return false;
        }
        i = i + 1;
    }
    assert(*a =~= *b);
    true
}

/// Hashes with no repeats, in the order they were put. (A `HashSet` of
/// 78-byte arrays would have no specification here: vstd models hash keys
/// for integers and booleans only.)
pub struct UniqueHashes {
    items: Vec<HashBytes>,
}

impl View for UniqueHashes {
    type V = Seq<HashBytes>;

    closed spec fn view(&self) -> Seq<HashBytes> {
        self.items@
    }
}

impl UniqueHashes {
    #[verifier::type_invariant]
    pub open spec fn has_no_repeats(self) -> bool {
        self@.no_duplicates()
    }

    pub fn new() -> (s: UniqueHashes)
        ensures
            s@ == Seq::<HashBytes>::empty(),
    {
        UniqueHashes { items: Vec::new() }
    }

    pub fn len(&self) -> (n: usize)
        ensures
            n == self@.len(),
    {
        self.items.len()
    }

    pub fn is_empty(&self) -> (b: bool)
        ensures
            b == (self@.len() == 0),
    {
        self.items.len() == 0
    }

    /// Position of `h`, if it is held.
    fn find(&self, h: &HashBytes) -> (pos: Option<usize>)
        ensures
            match pos {
                Some(i) => i < self@.len() && self@[i as int] == *h,
                None => !self@.contains(*h),
            },
    {
        let mut i: usize = 0;
        while i < self.items.len()
            invariant
                i <= self.items@.len(),
                forall|j: int| 0 <= j < i ==> self.items@[j] != *h,
            decreases self.items@.len() - i,
        {
            if hash_eq(&self.items[i], h) {
                return Some(i);
            }
            i = i + 1;
        }
        None
    }

    pub fn contains(&self, h: &HashBytes) -> (b: bool)
        ensures
            b == self@.contains(*h),
    {
        match self.find(h) {
            Some(_) => true,
            None => false,
        }
    }

    /// Takes `h` out; says whether it was held.
    pub fn remove(&mut self, h: &HashBytes) -> (b: bool)
        ensures
            b == old(self)@.contains(*h),
            b ==> exists|i: int| 0 <= i < old(self)@.len() && old(self)@[i] == *h && final(self)@ == old(self)@.remove(i),
            !b ==> final(self)@ == old(self)@,
    {
        proof { use_type_invariant(&*self); }
        match self.find(h) {
            Some(i) => {
                let ghost before = self@;
                let mut items: Vec<HashBytes> = Vec::new();
        std::mem::swap(&mut items, &mut self.items);
                items.remove(i);
                assert(items@ == before.remove(i as int));
                assert(items@.no_duplicates()) by {
                    assert forall|a: int, b: int| 0 <= a < b < items@.len() implies items@[a] != items@[b] by {
                        let pa = if a < i { a } else { a + 1 };
                        let pb = if b < i { b } else { b + 1 };
                        assert(items@[a] == before[pa]);
                        assert(items@[b] == before[pb]);
                    }
                }
                self.items = items;
                true
            },
            None => false,
        }
    }

    /// The hashes, in the order they were put.
    pub fn into_vec(self) -> (v: Vec<HashBytes>)
        ensures
            v@ == self@,
            v@.no_duplicates(),
    {
        proof { use_type_invariant(&self); }
        self.items
    }
}

impl PutSet<HashBytes> for UniqueHashes {
    open spec fn contents(&self) -> Seq<HashBytes> {
        self@
    }

    open spec fn can_put(&self, item: HashBytes) -> bool {
        !self@.contains(item)
    }

    fn put(&mut self, item: HashBytes) {
        proof { use_type_invariant(&*self); }
        let mut items: Vec<HashBytes> = Vec::new();
        std::mem::swap(&mut items, &mut self.items);
        items.push(item);
        assert(items@.no_duplicates()) by {
            assert forall|a: int, b: int| 0 <= a < b < items@.len() implies items@[a] != items@[b] by {
                if b == items@.len() - 1 {
                    assert(old(self)@.contains(items@[a]) ==> items@[a] != item);
                }
            }
        }
        self.items = items;
    }
}


/// Matching a second listing against the hashes of a first: the items of
/// `second` are taken in order; one still among `remaining` is taken out of
/// it, any other is missing from the first listing. Gives the missing items,
/// in order, and the hashes of the first listing that were never matched.
pub open spec fn match_listings(remaining: Set<HashBytes>, second: Seq<HashBytes>) -> (Seq<HashBytes>, Set<HashBytes>)
    decreases second.len(),
{
    if second.len() == 0 {
        (Seq::empty(), remaining)
    } else {
        let (missing, rest) = match_listings(remaining, second.drop_last());
        let x = second.last();
        if rest.contains(x) {
            (missing, rest.remove(x))
        } else {
            (missing.push(x), rest)
        }
    }
}

/// The outcome of comparing two listings.
pub struct Comparison {
    /// Hashes of the second listing that the first does not account for, in order.
    pub missing: Vec<HashBytes>,
    /// Hashes of the first listing that the second never matched.
    pub leftover: Vec<HashBytes>,
}

impl Comparison {
    /// The listings hold the same hashes.
    pub fn is_equal(&self) -> (b: bool)
        ensures
            b == (self.missing@.len() == 0 && self.leftover@.len() == 0),
    {
        self.missing.len() == 0 && self.leftover.len() == 0
    }
}

proof fn lemma_remove_from_distinct(s: Seq<HashBytes>, i: int)
    requires
        s.no_duplicates(),
        0 <= i < s.len(),
    ensures
        s.remove(i).to_set() == s.to_set().remove(s[i]),
        s.remove(i).no_duplicates(),
{
    let t = s.remove(i);
    assert forall|a: int, b: int| 0 <= a < b < t.len() implies t[a] != t[b] by {
        let pa = if a < i { a } else { a + 1 };
        let pb = if b < i { b } else { b + 1 };
        assert(t[a] == s[pa]);
        assert(t[b] == s[pb]);
    }
    assert forall|x: HashBytes| t.to_set().contains(x) <==> s.to_set().remove(s[i]).contains(x) by {
        if t.contains(x) {
            let k = choose|k: int| 0 <= k < t.len() && t[k] == x;
            let pk = if k < i { k } else { k + 1 };
            assert(s[pk] == x);
            assert(pk != i);
        }
        if s.contains(x) && x != s[i] {
            let k = choose|k: int| 0 <= k < s.len() && s[k] == x;
            if k < i {
                assert(t[k] == x);
            } else {
                assert(k != i);
                assert(t[k - 1] == x);
            }
        }
    }
    assert(t.to_set() =~= s.to_set().remove(s[i]));
}

/// The items of `s` that lie in `r`, in the order of `s`.
pub open spec fn kept(s: Seq<HashBytes>, r: Set<HashBytes>) -> Seq<HashBytes>
    decreases s.len(),
{
    if s.len() == 0 {
        s
    } else {
        let rest = kept(s.drop_last(), r);
        if r.contains(s.last()) {
            rest.push(s.last())
        } else {
            rest
        }
    }
}

proof fn lemma_kept_all(s: Seq<HashBytes>, r: Set<HashBytes>)
    requires
        forall|i: int| 0 <= i < s.len() ==> r.contains(#[trigger] s[i]),
    ensures
        kept(s, r) == s,
    decreases s.len(),
{
    if s.len() > 0 {
        lemma_kept_all(s.drop_last(), r);
        assert(s.drop_last().push(s.last()) =~= s);
    }
}

proof fn lemma_kept_same(s: Seq<HashBytes>, r1: Set<HashBytes>, r2: Set<HashBytes>)
    requires
        forall|i: int| 0 <= i < s.len() ==> (r1.contains(#[trigger] s[i]) <==> r2.contains(s[i])),
    ensures
        kept(s, r1) == kept(s, r2),
    decreases s.len(),
{
    if s.len() > 0 {
        lemma_kept_same(s.drop_last(), r1, r2);
        assert(r1.contains(s[s.len() - 1]) <==> r2.contains(s[s.len() - 1]));
    }
}

proof fn lemma_kept_contains(s: Seq<HashBytes>, r: Set<HashBytes>)
    ensures
        forall|y: HashBytes| kept(s, r).contains(y) <==> s.contains(y) && r.contains(y),
    decreases s.len(),
{
    if s.len() > 0 {
        let t = s.drop_last();
        lemma_kept_contains(t, r);
        assert forall|y: HashBytes| kept(s, r).contains(y) <==> s.contains(y) && r.contains(y) by {
            if s.contains(y) && y != s.last() {
                let i = choose|i: int| 0 <= i < s.len() && s[i] == y;
                assert(t[i] == y);
            }
            if t.contains(y) {
                let i = choose|i: int| 0 <= i < t.len() && t[i] == y;
                assert(s[i] == y);
            }
            if kept(s, r).contains(y) && r.contains(s.last()) && y != s.last() {
                let i = choose|i: int| 0 <= i < kept(s, r).len() && kept(s, r)[i] == y;
                assert(kept(t, r)[i] == y);
            }
            if r.contains(s.last()) && kept(t, r).contains(y) {
                let i = choose|i: int| 0 <= i < kept(t, r).len() && kept(t, r)[i] == y;
                assert(kept(s, r)[i] == y);
            }
            if r.contains(s.last()) && y == s.last() {
                assert(kept(s, r)[kept(t, r).len() as int] == y);
            }
        }
    }
}

proof fn lemma_kept_remove(s: Seq<HashBytes>, r: Set<HashBytes>, k: int)
    requires
        s.no_duplicates(),
        0 <= k < kept(s, r).len(),
    ensures
        kept(s, r.remove(kept(s, r)[k])) == kept(s, r).remove(k),
    decreases s.len(),
{
    let x = kept(s, r)[k];
    let t = s.drop_last();
    let l = s.last();
    let kt = kept(t, r);
    assert(t.no_duplicates());
    assert(!t.contains(l)) by {
        if t.contains(l) {
            let i = choose|i: int| 0 <= i < t.len() && t[i] == l;
            assert(s[i] == s[s.len() - 1]);
        }
    }
    lemma_kept_contains(t, r);
    if r.contains(l) {
        if k == kt.len() {
            assert(x == l);
            lemma_kept_same(t, r, r.remove(x));
            assert(kt.push(l).remove(k) =~= kt);
        } else {
            assert(x == kt[k]);
            assert(kt.contains(x));
            assert(x != l);
            lemma_kept_remove(t, r, k);
            assert(kt.remove(k).push(l) =~= kt.push(l).remove(k));
        }
    } else {
        lemma_kept_remove(t, r, k);
    }
}

/// Matches the hashes of `second`, in order, against those of `first`.
pub fn compare(first: UniqueHashes, second: &Vec<HashBytes>) -> (c: Comparison)
    ensures
        c.missing@ == match_listings(first@.to_set(), second@).0,
        c.leftover@ == kept(first@, match_listings(first@.to_set(), second@).1),
        c.leftover@.to_set() == match_listings(first@.to_set(), second@).1,
        c.leftover@.no_duplicates(),
{
    let ghost first_set = first@.to_set();
    proof {
        use_type_invariant(&first);
        lemma_kept_all(first@, first_set);
        assert(second@.take(0) =~= Seq::<HashBytes>::empty());
    }
    let ghost first_seq = first@;
    let mut remaining = first;
    let mut missing: Vec<HashBytes> = Vec::new();
    let mut i: usize = 0;
    while i < second.len()
        invariant
            i <= second@.len(),
            missing@ == match_listings(first_set, second@.take(i as int)).0,
            remaining@.to_set() == match_listings(first_set, second@.take(i as int)).1,
            first_seq.no_duplicates(),
            first_set == first_seq.to_set(),
            remaining@ == kept(first_seq, match_listings(first_set, second@.take(i as int)).1),
        decreases second@.len() - i,
    {
        proof { use_type_invariant(&remaining); }
        assert(second@.take(i + 1).drop_last() =~= second@.take(i as int));
        let item = second[i];
        let ghost before = remaining@;
        if remaining.remove(&item) {
            proof {
                let k = choose|k: int| 0 <= k < before.len() && before[k] == item && remaining@ == before.remove(k);
                lemma_remove_from_distinct(before, k);
                lemma_kept_remove(first_seq, match_listings(first_set, second@.take(i as int)).1, k);
            }
        } else {
            missing.push(item);
        }
        i = i + 1;
    }
    assert(second@.take(second@.len() as int) =~= second@);
    Comparison { missing, leftover: remaining.into_vec() }
}

proof fn lemma_match_accounting(init: Set<HashBytes>, second: Seq<HashBytes>)
    ensures
        ({
            let (missing, rest) = match_listings(init, second);
            &&& rest.subset_of(init)
            &&& forall|x: HashBytes| missing.contains(x) ==> !rest.contains(x)
            &&& forall|x: HashBytes|
                #[trigger] second.to_multiset().count(x) == (if init.contains(x) && !rest.contains(x) {
                    1nat
                } else {
                    0nat
                }) + missing.to_multiset().count(x)
        }),
    decreases second.len(),
{
    if second.len() == 0 {
        assert(second.to_multiset() =~= Multiset::empty());
        assert(Seq::<HashBytes>::empty().to_multiset() =~= Multiset::empty());
    } else {
        let s0 = second.drop_last();
        let x = second.last();
        lemma_match_accounting(init, s0);
        assert(second =~= s0.push(x));
        let (m0, r0) = match_listings(init, s0);
        if !r0.contains(x) {
            assert forall|y: HashBytes| m0.push(x).contains(y) implies !r0.contains(y) by {
                if y != x {
                    let k = choose|k: int| 0 <= k < m0.push(x).len() && m0.push(x)[k] == y;
                    assert(m0[k] == y);
                }
            }
        }
    }
}

/// The comparison finds the listings equal exactly when the second listing
/// holds the hashes of the first, each exactly once (in any order).
pub proof fn lemma_equal_iff_same_hashes(first: Seq<HashBytes>, second: Seq<HashBytes>)
    requires
        first.no_duplicates(),
    ensures
        ({
            let (missing, rest) = match_listings(first.to_set(), second);
            missing.len() == 0 && rest == Set::<HashBytes>::empty()
        }) <==> second.to_multiset() == first.to_multiset(),
{
    let init = first.to_set();
    let (missing, rest) = match_listings(init, second);
    lemma_match_accounting(init, second);
    first.lemma_multiset_has_no_duplicates();
    assert forall|x: HashBytes| #[trigger] first.to_multiset().count(x) == (if init.contains(x) {
        1nat
    } else {
        0nat
    }) by {
        if first.to_multiset().count(x) > 0 {
            assert(first.to_multiset().contains(x));
        }
    }
    if missing.len() == 0 && rest == Set::<HashBytes>::empty() {
        assert(missing.to_multiset() =~= Multiset::empty());
        assert(second.to_multiset() =~= first.to_multiset());
    }
    if second.to_multiset() == first.to_multiset() {
        if missing.len() > 0 {
            let x = missing[0];
            assert(missing.contains(x));
            assert(missing.to_multiset().count(x) > 0);
            assert(second.to_multiset().count(x) == first.to_multiset().count(x));
        }
        if rest != Set::<HashBytes>::empty() {
            let x = choose|x: HashBytes| rest.contains(x);
            assert(rest =~= Set::<HashBytes>::empty()) by {
                assert(missing =~= Seq::<HashBytes>::empty());
                assert(second.to_multiset().count(x) == first.to_multiset().count(x));
            }
        }
    }
}

} // verus!
