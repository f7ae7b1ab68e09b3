use vstd::prelude::*;

verus! {

/// Whether some entry of `pool` already holds the content `s`.
pub open spec fn has_entry(pool: Seq<Seq<char>>, s: Seq<char>) -> bool {
    exists|i: int| 0 <= i < pool.len() && pool[i] == s
}

/// The pool after interning `s`: unchanged when the content is already
/// present, extended by one entry otherwise.
pub open spec fn interned(pool: Seq<Seq<char>>, s: Seq<char>) -> Seq<Seq<char>> {
    if has_entry(pool, s) {
        pool
    } else {
        pool.push(s)
    }
}

/// The index at which `s` stands after interning it into `pool`. When the
/// pool holds no duplicates this index is unique.
pub open spec fn entry_of(pool: Seq<Seq<char>>, s: Seq<char>) -> int {
    if has_entry(pool, s) {
        choose|i: int| 0 <= i < pool.len() && pool[i] == s
    } else {
        pool.len() as int
    }
}

/// No two entries of `pool` hold the same content.
pub open spec fn all_distinct(pool: Seq<Seq<char>>) -> bool {
    forall|i: int, j: int| 0 <= i < j < pool.len() ==> pool[i] != pool[j]
}

/// Content-deduplicating string storage. Equal content interned at different
/// times shares a single entry, so two interned handles are equal exactly
/// when the content behind them is equal, and comparing handles is O(1).
/// Entries are never removed; handles stay valid for the pool's whole life.
pub struct StringPool {
    strings: Vec<String>,
}

impl View for StringPool {
    type V = Seq<Seq<char>>;

    /// The interned contents, in insertion order.
    closed spec fn view(&self) -> Seq<Seq<char>> {
        self.strings@.map_values(|s: String| s@)
    }
}

impl StringPool {
    /// The pool never holds the same content twice.
    pub open spec fn inv(&self) -> bool {
        all_distinct(self@)
    }

    pub fn new() -> (r: StringPool)
        ensures
            r@ == Seq::<Seq<char>>::empty(),
            r.inv(),
    {
        let r = StringPool { strings: Vec::new() };
        proof {
            assert(r@ =~= Seq::<Seq<char>>::empty());
        }
        r
    }

    pub fn len(&self) -> (r: usize)
        ensures
            r == self@.len(),
    {
        self.strings.len()
    }

    /// Read the content behind a handle, as an owned-string reference.
    pub fn get_string(&self, h: usize) -> (r: &String)
        requires
            h < self@.len(),
        ensures
            r@ == self@[h as int],
    {
        &self.strings[h]
    }

    /// Read the content behind a handle.
    pub fn get(&self, h: usize) -> (r: &str)
        requires
            h < self@.len(),
        ensures
            r@ == self@[h as int],
    {
        self.strings[h].as_str()
    }

    /// Intern `s`: return the handle of the entry holding this content,
    /// adding a new entry only when no existing one matches.
    pub fn intern(&mut self, s: String) -> (r: usize)
        requires
            old(self).inv(),
        ensures
            final(self).inv(),
            final(self)@ == interned(old(self)@, s@),
            r == entry_of(old(self)@, s@),
            r < final(self)@.len(),
            final(self)@[r as int] == s@,
    {
        let n = self.strings.len();
        let mut i: usize = 0;
        while i < n
            invariant
                n == self@.len(),
                i <= n,
                self.inv(),
                forall|j: int| 0 <= j < i ==> self@[j] != s@,
            decreases n - i,
        {
            if self.strings[i] == s {
                proof {
                    assert(self@[i as int] == s@);
                    assert(has_entry(self@, s@));
                    let w = choose|k: int| 0 <= k < self@.len() && self@[k] == s@;
                    assert(!(w < i) && !(i < w));
                }
                return i;
            }
            i += 1;
        }
        proof {
            assert(!has_entry(self@, s@));
        }
        let ghost oldview = self@;
        self.strings.push(s);
        proof {
            assert(self@ =~= oldview.push(s@));
        }
        n
    }
}

/// A character sequence never has more characters than its UTF-8 encoding
/// has bytes: every scalar encodes to at least one byte.
pub proof fn lemma_encode_utf8_len(s: Seq<char>)
    ensures
        vstd::utf8::encode_utf8(s).len() >= s.len(),
    decreases s.len(),
{
    if s.len() > 0 {
        lemma_encode_utf8_len(s.drop_first());
        assert(vstd::utf8::encode_scalar(s[0] as u32).len() >= 1);
    }
}

impl StringPool {
    /// An upper bound on the length (in characters) of every entry.
    pub fn max_entry_len(&self) -> (m: usize)
        ensures
            forall|i: int| 0 <= i < self@.len() ==> (#[trigger] self@[i]).len() <= m,
    {
        let n = self.strings.len();
        let mut m: usize = 0;
        let mut i: usize = 0;
        while i < n
            invariant
                n == self@.len(),
                i <= n,
                forall|j: int| 0 <= j < i ==> (#[trigger] self@[j]).len() <= m,
            decreases n - i,
        {
            let bl = self.strings[i].as_str().as_bytes().len();
            proof {
                lemma_encode_utf8_len(self@[i as int]);
            }
            if bl > m {
                m = bl;
            }
            i += 1;
        }
        m
    }
}

/// Interning is idempotent: interning the same content a second time returns
/// the same handle as the first call and leaves the pool unchanged, so the
/// pool grows only on the first call and the two handles are identity-equal.
pub proof fn lemma_intern_idempotent(pool: Seq<Seq<char>>, s: Seq<char>)
    requires
        all_distinct(pool),
    ensures
        interned(interned(pool, s), s) == interned(pool, s),
        entry_of(interned(pool, s), s) == entry_of(pool, s),
        all_distinct(interned(pool, s)),
{
    let pool1 = interned(pool, s);
    let r1 = entry_of(pool, s);
    if has_entry(pool, s) {
        assert(pool1 == pool);
        assert(interned(pool1, s) == pool1);
    } else {
        assert(pool1 == pool.push(s));
        assert(pool1[pool.len() as int] == s);
        assert(has_entry(pool1, s));
        assert(interned(pool1, s) == pool1);
        assert forall|i: int, j: int| 0 <= i < j < pool1.len() implies pool1[i] != pool1[j] by {
            if j < pool.len() {
            } else {
                assert(pool1[j] == s);
                assert(pool1[i] == pool[i]);
                assert(!has_entry(pool, s));
            }
        }
    }
    let r2 = entry_of(pool1, s);
    assert(0 <= r1 < pool1.len() && pool1[r1] == s);
    assert(has_entry(pool1, s));
    assert(0 <= r2 < pool1.len() && pool1[r2] == s);
    assert(all_distinct(pool1));
    if r1 < r2 {
        assert(pool1[r1] != pool1[r2]);
        assert(false);
    }
    if r2 < r1 {
        assert(pool1[r2] != pool1[r1]);
        assert(false);
    }
}

} // verus!
