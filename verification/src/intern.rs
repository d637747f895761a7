//! A string interner: each distinct byte string gets a small integer symbol,
//! and the strings are kept end to end in one buffer.
use vstd::prelude::*;
use vstd::multiset::Multiset;
use hashbrown::raw::RawTable;
use std::hash::{BuildHasher, Hasher};
use crate::text::push_slice;

verus! {

/// The handle of an interned string: its position in the order of interning.
#[derive(Debug, Copy, Clone, PartialEq, Eq)]
pub struct Symbol(pub usize);

/// Strings stored end to end in `data`; string `i` ends where `ends[i]` says
/// and starts where string `i - 1` ends.
struct EndTab {
    data: Vec<u8>,
    ends: Vec<usize>,
}

/// Where string `i` of an end table starts.
pub open spec fn start_of(ends: Seq<usize>, i: int) -> int {
    if i == 0 {
        0
    } else {
        ends[i - 1] as int
    }
}

impl EndTab {
    closed spec fn wf(&self) -> bool {
        &&& forall|i: int, j: int| 0 <= i <= j < self.ends@.len() ==> self.ends@[i] <= self.ends@[j]
        &&& self.ends@.len() == 0 ==> self.data@.len() == 0
        &&& self.ends@.len() > 0 ==> self.ends@.last() == self.data@.len()
    }

    /// The strings, by symbol.
    closed spec fn view(&self) -> Seq<Seq<u8>> {
        Seq::new(
            self.ends@.len(),
            |i: int| self.data@.subrange(start_of(self.ends@, i), self.ends@[i] as int),
        )
    }

    /// How many bytes the strings take together.
    closed spec fn byte_len(&self) -> nat {
        self.data@.len()
    }

    fn new() -> (r: EndTab)
        ensures
            r.wf(),
            r@ == Seq::<Seq<u8>>::empty(),
    {
        let r = EndTab { data: Vec::new(), ends: Vec::new() };
        assert(r@ =~= Seq::<Seq<u8>>::empty());
        r
    }

    fn add(&mut self, s: &[u8]) -> (r: Symbol)
        requires
            old(self).wf(),
            old(self).byte_len() + s@.len() <= usize::MAX,
        ensures
            final(self).wf(),
            final(self)@ == old(self)@.push(s@),
            r.0 == old(self)@.len(),
            final(self).byte_len() == old(self).byte_len() + s@.len(),
    {
        let ghost old_data = self.data@;
        let ghost old_ends = self.ends@;
        push_slice(&mut self.data, s);
        let sym = Symbol(self.ends.len());
        self.ends.push(self.data.len());
        proof {
            let n = old_ends.len() as int;
            assert forall|i: int| 0 <= i < n implies self@[i] == old(self)@[i] by {
                assert(old_ends[i] <= old_data.len()) by {
                    if n > 0 {
                        assert(old_ends[i] <= old_ends[n - 1]);
                    }
                }
                if i > 0 {
                    assert(old_ends[i - 1] <= old_ends[i]);
                }
                assert(self.data@.subrange(start_of(self.ends@, i), self.ends@[i] as int) =~= old_data.subrange(
                    start_of(old_ends, i),
                    old_ends[i] as int,
                ));
            }
            assert(start_of(self.ends@, n) == old_data.len()) by {
                if n > 0 {
                    assert(old_ends[n - 1] == old_data.len());
                }
            }
            assert(self.data@.subrange(start_of(self.ends@, n), self.ends@[n] as int) =~= s@);
            assert(self@ =~= old(self)@.push(s@));
            assert forall|i: int, j: int| 0 <= i <= j < self.ends@.len() implies self.ends@[i] <= self.ends@[j] by {
                if j == n && i < n {
                    assert(old_ends[i] <= old_ends[n - 1]);
                }
            }
        }
        sym
    }

    fn get(&self, sym: Symbol) -> (r: &[u8])
        requires
            self.wf(),
            sym.0 < self@.len(),
        ensures
            r@ == self@[sym.0 as int],
    {
        let n = self.ends.len();
        let i = sym.0;
        let start = if i > 0 {
            self.ends[i - 1]
        } else {
            0
        };
        let end = self.ends[i];
        proof {
            assert(self.ends@[i as int] <= self.data@.len()) by {
                assert(self.ends@[i as int] <= self.ends@[n - 1]);
            }
            if i > 0 {
                assert(self.ends@[i - 1] <= self.ends@[i as int]);
            }
        }
        vstd::slice::slice_subrange(self.data.as_slice(), start, end)
    }

    /// Whether `sym` is a symbol of this table standing for `s`.
    fn holds(&self, sym: Symbol, s: &[u8]) -> (r: bool)
        requires
            self.wf(),
        ensures
            r == (sym.0 < self@.len() && self@[sym.0 as int] == s@),
    {
        if sym.0 >= self.ends.len() {
            return false;
        }
        crate::text::bytes_eq(self.get(sym), s)
    }

    /// The hash of the string of `sym` under `keys` (of the empty string
    /// where there is none), as the table of symbols files it.
    fn hash_of(&self, keys: HashKeys, sym: Symbol) -> (r: u64)
        requires
            self.wf(),
        ensures
            sym.0 < self@.len() ==> r == keys.hash(self@[sym.0 as int]),
    {
        if sym.0 < self.ends.len() {
            hash_bytes(keys.k0, keys.k1, keys.k2, keys.k3, self.get(sym))
        } else {
            hash_bytes(keys.k0, keys.k1, keys.k2, keys.k3, &[])
        }
    }
}

/// The four keys an ahash hasher is seeded with.
#[derive(Debug, Copy, Clone)]
pub struct HashKeys {
    pub k0: u64,
    pub k1: u64,
    pub k2: u64,
    pub k3: u64,
}

impl HashKeys {
    /// The hash of `s` under these keys.
    pub open spec fn hash(self, s: Seq<u8>) -> u64 {
        ahash_with_seeds(self.k0, self.k1, self.k2, self.k3, s)
    }
}

/// What an ahash hasher seeded with four keys writes for a byte string.
pub uninterp spec fn ahash_with_seeds(k0: u64, k1: u64, k2: u64, k3: u64, s: Seq<u8>) -> u64;

/// ahash's `RandomState::with_seeds(k0, k1, k2, k3)`, built into a hasher
/// and fed `s` with `write`, then `finish()`: the result depends on the keys
/// and the bytes alone (for a given build, which picks ahash's algorithm by
/// the CPU features it targets).
#[verifier::external_body]
fn hash_bytes(k0: u64, k1: u64, k2: u64, k3: u64, s: &[u8]) -> (r: u64)
    ensures
        r == ahash_with_seeds(k0, k1, k2, k3, s@),
{
    let mut hasher = ahash::RandomState::with_seeds(k0, k1, k2, k3).build_hasher();
    hasher.write(s);
    hasher.finish()
}

/// Four keys drawn from ahash's `RandomState::new()`, which seeds itself
/// from the system's random source: the hashes of the first four numbers
/// under it.  Nothing is stated of them.
#[verifier::external_body]
fn fresh_keys() -> (r: HashKeys) {
    let state = ahash::RandomState::new();
    HashKeys { k0: state.hash_one(0u8), k1: state.hash_one(1u8), k2: state.hash_one(2u8), k3: state.hash_one(3u8) }
}

/// A hashbrown `RawTable` of symbols, each filed under a hash.
#[verifier::external_body]
pub struct SymbolTable {
    table: RawTable<Symbol>,
}

/// What a table holds: each symbol (by its number) with the hash it is
/// filed under, each as often as it was inserted.
pub uninterp spec fn table_contents(t: SymbolTable) -> Multiset<(usize, u64)>;

/// hashbrown's `RawTable::new`: a table that holds nothing.
#[verifier::external_body]
fn table_new() -> (r: SymbolTable)
    ensures
        table_contents(r) =~= Multiset::<(usize, u64)>::empty(),
{
    SymbolTable { table: RawTable::new() }
}

/// hashbrown's `RawTable::get` with `hash` and a test that the symbol stands
/// for `s` in `tab`: it probes the buckets where an entry filed under `hash`
/// can stand, up to the first group with an empty bucket, and gives the
/// first entry met that passes the test.  So a symbol found is one the table
/// holds that passes the test, and it finds one whenever the table holds a
/// symbol filed under `hash` that passes it.
#[verifier::external_body]
fn table_find(t: &SymbolTable, hash: u64, tab: &EndTab, s: &[u8]) -> (r: Option<Symbol>)
    requires
        tab.wf(),
    ensures
        r matches Some(y) ==> (exists|h: u64| table_contents(*t).contains((y.0, h))) && y.0 < tab@.len()
            && tab@[y.0 as int] == s@,
        r is None ==> forall|x: usize|
            #[trigger] table_contents(*t).contains((x, hash)) ==> !(x < tab@.len() && tab@[x as int] == s@),
{
    t.table.get(hash, |sym: &Symbol| tab.holds(*sym, s)).copied()
}

/// hashbrown's `RawTable::insert`: files `sym` under `hash`, first growing
/// the table when it is full, which refiles each entry under the hash that
/// `tab.hash_of` gives it; each is filed under that hash already.  It panics
/// on capacity overflow, which the bound on what the table holds rules out.
#[verifier::external_body]
fn table_insert(t: &mut SymbolTable, hash: u64, sym: Symbol, keys: HashKeys, tab: &EndTab)
    requires
        tab.wf(),
        table_contents(*old(t)).len() < usize::MAX / 64,
        forall|p: (usize, u64)|
            #[trigger] table_contents(*old(t)).contains(p) ==> p.0 < tab@.len() && p.1 == keys.hash(tab@[p.0 as int]),
    ensures
        table_contents(*final(t)) == table_contents(*old(t)).insert((sym.0, hash)),
{
    t.table.insert(hash, sym, |x: &Symbol| tab.hash_of(keys, *x));
}

/// A string interner.
pub struct Intern {
    lookup: SymbolTable,
    keys: HashKeys,
    endtab: EndTab,
}

impl Intern {
    /// Each string is filed in the table under its hash, the table holds
    /// nothing else, and no string is interned twice.
    pub closed spec fn wf(&self) -> bool {
        &&& self.endtab.wf()
        &&& forall|p: (usize, u64)|
            #[trigger] table_contents(self.lookup).contains(p) ==> p.0 < self.endtab@.len() && p.1
                == self.keys.hash(self.endtab@[p.0 as int])
        &&& forall|i: int|
            0 <= i < self.endtab@.len() ==> #[trigger] table_contents(self.lookup).contains(
                (i as usize, self.keys.hash(self.endtab@[i])),
            )
        &&& table_contents(self.lookup).len() <= self.endtab@.len()
        &&& distinct(self.endtab@)
    }

    /// The interned strings, by symbol.
    pub closed spec fn view(&self) -> Seq<Seq<u8>> {
        self.endtab@
    }

    /// How many bytes the interned strings take together.
    pub closed spec fn byte_len(&self) -> nat {
        self.endtab.byte_len()
    }

    pub fn new() -> (r: Intern)
        ensures
            r.wf(),
            r@ == Seq::<Seq<u8>>::empty(),
            r.byte_len() == 0,
    {
        Intern { lookup: table_new(), keys: fresh_keys(), endtab: EndTab::new() }
    }

    /// The symbol of `s`: the one already given for an equal string, else a
    /// new one, the next in order.
    pub fn add(&mut self, s: &[u8]) -> (r: Symbol)
        requires
            old(self).wf(),
            old(self)@.len() < usize::MAX / 64,
            old(self).byte_len() + s@.len() <= usize::MAX,
        ensures
            final(self).wf(),
            r.0 < final(self)@.len(),
            final(self)@[r.0 as int] == s@,
            old(self)@.contains(s@) ==> final(self)@ == old(self)@ && final(self).byte_len() == old(self).byte_len(),
            !old(self)@.contains(s@) ==> final(self)@ == old(self)@.push(s@) && r.0 == old(self)@.len()
                && final(self).byte_len() == old(self).byte_len() + s@.len(),
    {
        proof {
            use_distinct(self.endtab@);
        }
        let hash = hash_bytes(self.keys.k0, self.keys.k1, self.keys.k2, self.keys.k3, s);
        match table_find(&self.lookup, hash, &self.endtab, s) {
            Some(sym) => {
                return sym;
            },
            None => {},
        }
        proof {
            if self.endtab@.contains(s@) {
                let i = choose|i: int| 0 <= i < self.endtab@.len() && self.endtab@[i] == s@;
                assert(table_contents(self.lookup).contains((i as usize, self.keys.hash(self.endtab@[i]))));
            }
        }
        let ghost c0 = table_contents(self.lookup);
        let ghost t0 = self.endtab@;
        let sym = self.endtab.add(s);
        table_insert(&mut self.lookup, hash, sym, self.keys, &self.endtab);
        proof {
            let c = table_contents(self.lookup);
            let t = self.endtab@;
            assert forall|p: (usize, u64)| #[trigger] c.contains(p) implies p.0 < t.len() && p.1 == self.keys.hash(
                t[p.0 as int],
            ) by {
                if p != (sym.0, hash) {
                    assert(c0.contains(p));
                }
            }
            assert forall|i: int| 0 <= i < t.len() implies #[trigger] c.contains(
                (i as usize, self.keys.hash(t[i])),
            ) by {
                if i < t0.len() {
                    assert(c0.contains((i as usize, self.keys.hash(t0[i]))));
                }
            }
            assert forall|i: int, j: int| 0 <= i < j < t.len() implies t[i] != t[j] by {
                if j == t0.len() {
                    assert(t0.contains(t0[i]));
                }
            }
        }
        sym
    }

    /// The string `sym` stands for.
    pub fn get(&self, sym: Symbol) -> (r: &[u8])
        requires
            self.wf(),
            sym.0 < self@.len(),
        ensures
            r@ == self@[sym.0 as int],
    {
        self.endtab.get(sym)
    }
}

/// No string occurs twice.
pub open spec fn distinct(t: Seq<Seq<u8>>) -> bool {
    forall|i: int, j: int| 0 <= i < j < t.len() ==> t[i] != t[j]
}

proof fn use_distinct(t: Seq<Seq<u8>>)
    requires
        distinct(t),
    ensures
        forall|i: int, j: int| 0 <= i < t.len() && 0 <= j < t.len() && t[i] == t[j] ==> i == j,
{
}

impl Intern {
    /// No string is interned twice: the symbol of a string is the only one
    /// standing for it.
    pub proof fn law_interned_distinct(&self)
        requires
            self.wf(),
        ensures
            distinct(self@),
    {
    }
}

} // verus!
