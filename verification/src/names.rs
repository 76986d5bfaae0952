use vstd::prelude::*;
use vstd::string::StringExecFns;

verus! {

/// Whether two strings hold the same characters.
pub fn str_eq(a: &str, b: &str) -> (r: bool)
    ensures
        r == (a@ == b@),
{
    let x = String::from_str(a);
    let y = String::from_str(b);
    x == y
}

/// The map a sequence of `(key, value)` entries stands for: a later entry for
/// a key overrides an earlier one.
pub open spec fn entries_view<V: View>(s: Seq<(String, V)>) -> Map<Seq<char>, V::V>
    decreases s.len(),
{
    if s.len() == 0 {
        Map::empty()
    } else {
        entries_view(s.drop_last()).insert(s.last().0@, s.last().1@)
    }
}

pub proof fn lemma_entries_view_dom<V: View>(s: Seq<(String, V)>, k: Seq<char>)
    ensures
        entries_view(s).dom().contains(k) <==> exists|i: int| 0 <= i < s.len() && (#[trigger] s[i]).0@ == k,
    decreases s.len(),
{
    if s.len() > 0 {
        lemma_entries_view_dom(s.drop_last(), k);
        if entries_view(s.drop_last()).dom().contains(k) {
            let i = choose|i: int| 0 <= i < s.drop_last().len() && (#[trigger] s.drop_last()[i]).0@ == k;
            assert(s[i] == s.drop_last()[i]);
        }
        if exists|i: int| 0 <= i < s.len() && (#[trigger] s[i]).0@ == k {
            let i = choose|i: int| 0 <= i < s.len() && (#[trigger] s[i]).0@ == k;
            if i < s.len() - 1 {
                assert(s.drop_last()[i] == s[i]);
            }
        }
    }
}

/// If no entry at index `n` or beyond has key `k`, the prefix of length `n`
/// already gives `k` its value.
pub proof fn lemma_entries_view_prefix<V: View>(s: Seq<(String, V)>, n: int, k: Seq<char>)
    requires
        0 <= n <= s.len(),
        forall|j: int| n <= j < s.len() ==> (#[trigger] s[j]).0@ != k,
    ensures
        entries_view(s).dom().contains(k) == entries_view(s.subrange(0, n)).dom().contains(k),
        entries_view(s).dom().contains(k) ==> entries_view(s)[k] == entries_view(s.subrange(0, n))[k],
    decreases s.len() - n,
{
    if n < s.len() {
        assert(s.subrange(0, n + 1).drop_last() =~= s.subrange(0, n));
        assert(s.subrange(0, n + 1).last() == s[n]);
        lemma_entries_view_prefix(s, n + 1, k);
    } else {
        assert(s.subrange(0, n) =~= s);
    }
}

/// A map from names to values, kept as a list of entries.
#[derive(Debug)]
pub struct StrMap<V> {
    entries: Vec<(String, V)>,
}

impl<V: View> View for StrMap<V> {
    type V = Map<Seq<char>, V::V>;

    open spec fn view(&self) -> Map<Seq<char>, V::V> {
        entries_view(self.spec_entries())
    }
}

impl<V: View> StrMap<V> {
    pub closed spec fn spec_entries(&self) -> Seq<(String, V)> {
        self.entries@
    }

    pub fn new() -> (r: Self)
        ensures
            r@ == Map::<Seq<char>, V::V>::empty(),
    {
        StrMap { entries: Vec::new() }
    }

    /// Sets the value of a key; the key then comes last in `entries`.
    pub fn insert(&mut self, key: String, value: V)
        ensures
            final(self)@ == old(self)@.insert(key@, value@),
    {
        let ghost k = key@;
        let ghost v = value@;
        self.remove(key.as_str());
        let ghost mid = self.entries@;
        self.entries.push((key, value));
        proof {
            assert(self.entries@.drop_last() =~= mid);
            assert(self@ =~= old(self)@.insert(k, v));
        }
    }

    /// The entries in order; a later entry for a key overrides an earlier one.
    pub fn entries(&self) -> (r: &Vec<(String, V)>)
        ensures
            entries_view(r@) == self@,
    {
        &self.entries
    }

    pub fn get(&self, key: &str) -> (r: Option<&V>)
        ensures
            match r {
                Some(v) => self@.dom().contains(key@) && v@ == self@[key@],
                None => !self@.dom().contains(key@),
            },
    {
        let mut i: usize = self.entries.len();
        while i > 0
            invariant
                i <= self.entries.len(),
                forall|j: int| i <= j < self.entries.len() ==> (#[trigger] self.entries@[j]).0@ != key@,
            decreases i,
        {
            let e = &self.entries[i - 1];
            if str_eq(e.0.as_str(), key) {
                proof {
                    let s = self.entries@;
                    lemma_entries_view_prefix(s, i as int, key@);
                    assert(s.subrange(0, i as int).last() == s[i - 1]);
                }
                return Some(&e.1);
            }
            i = i - 1;
        }
        proof {
            lemma_entries_view_prefix(self.entries@, 0, key@);
            assert(self.entries@.subrange(0, 0) =~= Seq::<(String, V)>::empty());
        }
        None
    }

    pub fn contains_key(&self, key: &str) -> (r: bool)
        ensures
            r == self@.dom().contains(key@),
    {
        self.get(key).is_some()
    }

    pub fn is_empty(&self) -> (r: bool)
        ensures
            r == (self@.dom().len() == 0),
            r == (self@ == Map::<Seq<char>, V::V>::empty()),
    {
        proof {
            let s = self.entries@;
            if s.len() == 0 {
                assert(self@.dom() =~= Set::<Seq<char>>::empty());
                assert(self@ =~= Map::<Seq<char>, V::V>::empty());
            } else {
                assert(self@.dom().contains(s.last().0@));
                lemma_entries_view_finite(s);
                vstd::set_lib::lemma_set_empty_equivalency_len(self@.dom());
            }
        }
        self.entries.len() == 0
    }

    pub fn remove(&mut self, key: &str)
        ensures
            final(self)@ == old(self)@.remove(key@),
    {
        let mut rest: Vec<(String, V)> = Vec::new();
        std::mem::swap(&mut rest, &mut self.entries);
        let mut kept: Vec<(String, V)> = Vec::new();
        proof {
            lemma_entries_view_remove_empty::<V>(key@);
        }
        let ghost all = rest@;
        let ghost mut done: int = 0;
        while rest.len() > 0
            invariant
                0 <= done <= all.len(),
                rest@ == all.subrange(done, all.len() as int),
                entries_view(kept@) == entries_view(all.subrange(0, done)).remove(key@),
            decreases rest.len(),
        {
            let e = rest.remove(0);
            proof {
                assert(e == all[done]);
                assert(all.subrange(0, done + 1).drop_last() =~= all.subrange(0, done));
                assert(all.subrange(0, done + 1).last() == all[done]);
            }
            if str_eq(e.0.as_str(), key) {
                proof {
                    assert(entries_view(all.subrange(0, done + 1)).remove(key@) =~= entries_view(all.subrange(0, done)).remove(key@));
                }
            } else {
                let ghost before = kept@;
                kept.push(e);
                proof {
                    assert(kept@.drop_last() =~= before);
                    assert(entries_view(kept@) =~= entries_view(all.subrange(0, done + 1)).remove(key@));
                }
            }
            proof {
                done = done + 1;
            }
        }
        proof {
            assert(all.subrange(0, done) =~= all);
        }
        self.entries = kept;
    }

    /// The keys of the map, each once for every entry that names it.
    pub fn keys(&self) -> (r: Vec<String>)
        ensures
            forall|k: Seq<char>| self@.dom().contains(k) <==> exists|i: int| 0 <= i < r.len() && (#[trigger] r@[i])@ == k,
    {
        let mut out: Vec<String> = Vec::new();
        let mut i: usize = 0;
        while i < self.entries.len()
            invariant
                i <= self.entries.len(),
                out.len() == i,
                forall|j: int| 0 <= j < i ==> (#[trigger] out@[j])@ == self.entries@[j].0@,
            decreases self.entries.len() - i,
        {
            out.push(self.entries[i].0.clone());
            i = i + 1;
        }
        proof {
            assert forall|k: Seq<char>| self@.dom().contains(k) <==> exists|i: int| 0 <= i < out.len() && (#[trigger] out@[i])@ == k by {
                lemma_entries_view_dom(self.entries@, k);
                if self@.dom().contains(k) {
                    let i = choose|i: int| 0 <= i < self.entries@.len() && (#[trigger] self.entries@[i]).0@ == k;
                    assert(out@[i]@ == k);
                }
                if exists|i: int| 0 <= i < out.len() && (#[trigger] out@[i])@ == k {
                    let i = choose|i: int| 0 <= i < out.len() && (#[trigger] out@[i])@ == k;
                    assert(self.entries@[i].0@ == k);
                }
            }
        }
        out
    }
}

pub proof fn lemma_entries_view_finite<V: View>(s: Seq<(String, V)>)
    ensures
        entries_view(s).dom().finite(),
    decreases s.len(),
{
    if s.len() > 0 {
        lemma_entries_view_finite(s.drop_last());
    }
}

pub proof fn lemma_entries_view_remove_empty<V: View>(k: Seq<char>)
    ensures
        entries_view(Seq::<(String, V)>::empty()) == entries_view(Seq::<(String, V)>::empty().subrange(0, 0)).remove(k),
{
    assert(Seq::<(String, V)>::empty().subrange(0, 0) =~= Seq::<(String, V)>::empty());
    assert(Map::<Seq<char>, V::V>::empty().remove(k) =~= Map::<Seq<char>, V::V>::empty());
}

impl StrMap<String> {
    /// An entry-by-entry copy.
    pub fn copy(&self) -> (r: Self)
        ensures
            r@ == self@,
    {
        let mut out: Vec<(String, String)> = Vec::new();
        let mut i: usize = 0;
        while i < self.entries.len()
            invariant
                i <= self.entries.len(),
                out@ == self.entries@.subrange(0, i as int),
            decreases self.entries.len() - i,
        {
            let e = &self.entries[i];
            out.push((e.0.clone(), e.1.clone()));
            proof {
                assert(out@ =~= self.entries@.subrange(0, i + 1));
            }
            i = i + 1;
        }
        proof {
            assert(out@ =~= self.entries@);
        }
        StrMap { entries: out }
    }
}

/// A set of names.
#[derive(Debug)]
pub struct StrSet {
    items: Vec<String>,
}

impl View for StrSet {
    type V = Set<Seq<char>>;

    open spec fn view(&self) -> Set<Seq<char>> {
        Set::new(|x: Seq<char>| exists|i: int| 0 <= i < self.spec_items().len() && (#[trigger] self.spec_items()[i])@ == x)
    }
}

impl StrSet {
    pub closed spec fn spec_items(&self) -> Seq<String> {
        self.items@
    }

    pub fn new() -> (r: StrSet)
        ensures
            r@ == Set::<Seq<char>>::empty(),
    {
        let r = StrSet { items: Vec::new() };
        assert(r@ =~= Set::<Seq<char>>::empty());
        r
    }

    pub fn contains(&self, x: &str) -> (r: bool)
        ensures
            r == self@.contains(x@),
    {
        let mut i: usize = 0;
        while i < self.items.len()
            invariant
                i <= self.items.len(),
                forall|j: int| 0 <= j < i ==> (#[trigger] self.items@[j])@ != x@,
            decreases self.items.len() - i,
        {
            if str_eq(self.items[i].as_str(), x) {
                assert(self.items@[i as int]@ == x@);
                return true;
            }
            i = i + 1;
        }
        false
    }

    pub fn insert(&mut self, x: String)
        ensures
            final(self)@ == old(self)@.insert(x@),
    {
        if !self.contains(x.as_str()) {
            let ghost xv = x@;
            self.items.push(x);
            proof {
                assert forall|y: Seq<char>| final(self)@.contains(y) <==> old(self)@.insert(xv).contains(y) by {
                    if y == xv {
                        assert(self.items@[self.items@.len() - 1]@ == y);
                    }
                    if old(self)@.contains(y) {
                        let i = choose|i: int| 0 <= i < old(self).items@.len() && (#[trigger] old(self).items@[i])@ == y;
                        assert(self.items@[i] == old(self).items@[i]);
                    }
                    if final(self)@.contains(y) && y != xv {
                        let i = choose|i: int| 0 <= i < self.items@.len() && (#[trigger] self.items@[i])@ == y;
                        assert(old(self).items@[i] == self.items@[i]);
                    }
                }
                assert(final(self)@ =~= old(self)@.insert(xv));
            }
        } else {
            proof {
                assert(old(self)@.insert(x@) =~= old(self)@);
            }
        }
    }

    pub fn extend(&mut self, other: StrSet)
        ensures
            final(self)@ == old(self)@.union(other@),
    {
        let mut i: usize = 0;
        while i < other.items.len()
            invariant
                i <= other.items.len(),
                forall|x: Seq<char>| #[trigger] self@.contains(x) <==> (old(self)@.contains(x) || exists|j: int| 0 <= j < i && (#[trigger] other.items@[j])@ == x),
            decreases other.items.len() - i,
        {
            self.insert(other.items[i].clone());
            proof {
                assert forall|x: Seq<char>| #[trigger] self@.contains(x) <==> (old(self)@.contains(x) || exists|j: int| 0 <= j < i + 1 && (#[trigger] other.items@[j])@ == x) by {
                    if exists|j: int| 0 <= j < i + 1 && (#[trigger] other.items@[j])@ == x {
                        let j = choose|j: int| 0 <= j < i + 1 && (#[trigger] other.items@[j])@ == x;
                        if j < i {
                            assert(0 <= j < i && other.items@[j]@ == x);
                        }
                    }
                    if x == other.items@[i as int]@ {
                        assert(0 <= i < i + 1 && other.items@[i as int]@ == x);
                    }
                }
            }
            i = i + 1;
        }
        proof {
            assert(self@ =~= old(self)@.union(other@));
        }
    }

    /// The members of the set, each once.
    pub fn to_vec(&self) -> (r: Vec<String>)
        ensures
            forall|x: Seq<char>| self@.contains(x) <==> exists|i: int| 0 <= i < r.len() && (#[trigger] r@[i])@ == x,
    {
        let mut out: Vec<String> = Vec::new();
        let mut i: usize = 0;
        while i < self.items.len()
            invariant
                i <= self.items.len(),
                out.len() == i,
                forall|j: int| 0 <= j < i ==> (#[trigger] out@[j])@ == self.items@[j]@,
            decreases self.items.len() - i,
        {
            out.push(self.items[i].clone());
            i = i + 1;
        }
        proof {
            assert forall|x: Seq<char>| self@.contains(x) <==> exists|i: int| 0 <= i < out.len() && (#[trigger] out@[i])@ == x by {
                if self@.contains(x) {
                    let i = choose|i: int| 0 <= i < self.items@.len() && (#[trigger] self.items@[i])@ == x;
                    assert(out@[i]@ == x);
                }
                if exists|i: int| 0 <= i < out.len() && (#[trigger] out@[i])@ == x {
                    let i = choose|i: int| 0 <= i < out.len() && (#[trigger] out@[i])@ == x;
                    assert(self.items@[i]@ == x);
                }
            }
        }
        out
    }
}


/// The decimal digit `d` (for `d < 10`).
pub open spec fn digit_char(d: nat) -> char {
    if d == 0 { '0' } else if d == 1 { '1' } else if d == 2 { '2' } else if d == 3 { '3' } else if d == 4 { '4' }
    else if d == 5 { '5' } else if d == 6 { '6' } else if d == 7 { '7' } else if d == 8 { '8' } else { '9' }
}

/// The decimal notation of `n`, without leading zeros.
pub open spec fn decimal(n: nat) -> Seq<char>
    decreases n,
{
    if n < 10 {
        seq![digit_char(n)]
    } else {
        decimal(n / 10).push(digit_char(n % 10))
    }
}

fn digit_str(d: usize) -> (r: &'static str)
    requires
        d < 10,
    ensures
        r@ == seq![digit_char(d as nat)],
{
    proof {
        reveal_strlit("0");
        reveal_strlit("1");
        reveal_strlit("2");
        reveal_strlit("3");
        reveal_strlit("4");
        reveal_strlit("5");
        reveal_strlit("6");
        reveal_strlit("7");
        reveal_strlit("8");
        reveal_strlit("9");
    }
    if d == 0 { "0" } else if d == 1 { "1" } else if d == 2 { "2" } else if d == 3 { "3" } else if d == 4 { "4" }
    else if d == 5 { "5" } else if d == 6 { "6" } else if d == 7 { "7" } else if d == 8 { "8" } else { "9" }
}

/// The decimal notation of a number.
pub fn usize_to_string(n: usize) -> (r: String)
    ensures
        r@ == decimal(n as nat),
    decreases n,
{
    if n < 10 {
        String::from_str(digit_str(n))
    } else {
        let mut s = usize_to_string(n / 10);
        s.append(digit_str(n % 10));
        s
    }
}

/// The decimal notation of a 64-bit number.
pub fn u64_to_string(n: u64) -> (r: String)
    ensures
        r@ == decimal(n as nat),
    decreases n,
{
    if n < 10 {
        String::from_str(digit_str(n as usize))
    } else {
        let mut s = u64_to_string(n / 10);
        s.append(digit_str((n % 10) as usize));
        s
    }
}

/// The decimal notation of a signed number, with `-` before a negative one.
pub open spec fn signed_decimal(v: int) -> Seq<char> {
    if v < 0 {
        seq!['-'] + decimal((-v) as nat)
    } else {
        decimal(v as nat)
    }
}

pub fn i64_to_string(v: i64) -> (r: String)
    ensures
        r@ == signed_decimal(v as int),
{
    proof {
        reveal_strlit("-");
        assert("-"@ =~= seq!['-']);
    }
    if v < 0 {
        let m: u64 = if v == i64::MIN { 0x8000_0000_0000_0000u64 } else { (-v) as u64 };
        let digits = u64_to_string(m);
        String::from_str("-").concat(digits.as_str())
    } else {
        u64_to_string(v as u64)
    }
}

/// `true` or `false`.
pub open spec fn bool_text(b: bool) -> Seq<char> {
    if b { seq!['t', 'r', 'u', 'e'] } else { seq!['f', 'a', 'l', 's', 'e'] }
}

pub fn bool_to_string(b: bool) -> (r: String)
    ensures
        r@ == bool_text(b),
{
    proof {
        reveal_strlit("true");
        reveal_strlit("false");
        assert("true"@ =~= bool_text(true));
        assert("false"@ =~= bool_text(false));
    }
    if b { String::from_str("true") } else { String::from_str("false") }
}

/// The views of a list of strings.
pub open spec fn texts_view(v: Seq<String>) -> Seq<Seq<char>> {
    Seq::new(v.len(), |i: int| v[i]@)
}

/// The texts joined with `, `.
pub fn join_strings(parts: &Vec<String>) -> (r: String)
    ensures
        r@ == join_comma(texts_view(parts@)),
{
    proof {
        reveal_strlit(", ");
        assert(", "@ =~= seq![',', ' ']);
    }
    let mut out = String::new();
    let mut i: usize = 0;
    proof {
        assert(texts_view(parts@).subrange(0, 0) =~= Seq::<Seq<char>>::empty());
        assert(out@ =~= join_comma(Seq::<Seq<char>>::empty()));
    }
    while i < parts.len()
        invariant
            i <= parts.len(),
            ", "@ == seq![',', ' '],
            out@ == join_comma(texts_view(parts@).subrange(0, i as int)),
        decreases parts.len() - i,
    {
        if i > 0 {
            out.append(", ");
        }
        out.append(parts[i].as_str());
        proof {
            let sub = texts_view(parts@).subrange(0, i + 1);
            assert(sub.drop_last() =~= texts_view(parts@).subrange(0, i as int));
            if i == 0 {
                assert(out@ =~= sub[0]);
            }
        }
        i = i + 1;
    }
    proof {
        assert(texts_view(parts@).subrange(0, parts.len() as int) =~= texts_view(parts@));
    }
    out
}

/// The texts joined with `, `.
pub open spec fn join_comma(s: Seq<Seq<char>>) -> Seq<char>
    decreases s.len(),
{
    if s.len() == 0 {
        Seq::empty()
    } else if s.len() == 1 {
        s[0]
    } else {
        join_comma(s.drop_last()) + seq![',', ' '] + s.last()
    }
}

} // verus!
