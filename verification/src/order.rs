//! Orders used by the analyses: byte-wise text order, a total preorder
//! abstraction, and a stable sort that returns the sorted positions.
use vstd::prelude::*;
use vstd::utf8::encode_utf8;

verus! {

// ---------------------------------------------------------------------------
// Byte-wise lexicographic order (the order of Rust's `str`/`String`).
// ---------------------------------------------------------------------------

/// `a` is lexicographically at most `b`.
pub open spec fn lex_le(a: Seq<u8>, b: Seq<u8>) -> bool
    decreases a.len(),
{
    if a.len() == 0 {
        true
    } else if b.len() == 0 {
        false
    } else if a[0] != b[0] {
        a[0] < b[0]
    } else {
        lex_le(a.drop_first(), b.drop_first())
    }
}

/// Text order of Rust strings: the lexicographic order of their UTF-8 bytes.
pub open spec fn text_le(a: Seq<char>, b: Seq<char>) -> bool {
    lex_le(encode_utf8(a), encode_utf8(b))
}

pub proof fn lemma_lex_total(a: Seq<u8>, b: Seq<u8>)
    ensures
        lex_le(a, b) || lex_le(b, a),
    decreases a.len(),
{
    if a.len() > 0 && b.len() > 0 && a[0] == b[0] {
        lemma_lex_total(a.drop_first(), b.drop_first());
    }
}

pub proof fn lemma_lex_trans(a: Seq<u8>, b: Seq<u8>, c: Seq<u8>)
    requires
        lex_le(a, b),
        lex_le(b, c),
    ensures
        lex_le(a, c),
    decreases a.len(),
{
    if a.len() > 0 && b.len() > 0 && c.len() > 0 && a[0] == b[0] && b[0] == c[0] {
        lemma_lex_trans(a.drop_first(), b.drop_first(), c.drop_first());
    }
}

pub proof fn lemma_lex_antisym(a: Seq<u8>, b: Seq<u8>)
    requires
        lex_le(a, b),
        lex_le(b, a),
    ensures
        a == b,
    decreases a.len(),
{
    if a.len() > 0 {
        lemma_lex_antisym(a.drop_first(), b.drop_first());
        assert(a =~= seq![a[0]] + a.drop_first());
        assert(b =~= seq![b[0]] + b.drop_first());
    }
}

pub proof fn lemma_text_total(a: Seq<char>, b: Seq<char>)
    ensures
        text_le(a, b) || text_le(b, a),
{
    lemma_lex_total(encode_utf8(a), encode_utf8(b));
}

pub proof fn lemma_text_trans(a: Seq<char>, b: Seq<char>, c: Seq<char>)
    requires
        text_le(a, b),
        text_le(b, c),
    ensures
        text_le(a, c),
{
    lemma_lex_trans(encode_utf8(a), encode_utf8(b), encode_utf8(c));
}

/// Two strings that are each at most the other are equal.
pub proof fn lemma_text_antisym(a: Seq<char>, b: Seq<char>)
    requires
        text_le(a, b),
        text_le(b, a),
    ensures
        a == b,
{
    broadcast use vstd::utf8::encode_utf8_decode_utf8;

    lemma_lex_antisym(encode_utf8(a), encode_utf8(b));
    assert(vstd::utf8::decode_utf8(encode_utf8(a)) == a);
    assert(vstd::utf8::decode_utf8(encode_utf8(b)) == b);
}

/// Compares two byte strings lexicographically.
pub fn bytes_le(a: &[u8], b: &[u8]) -> (r: bool)
    ensures
        r == lex_le(a@, b@),
{
    let mut i: usize = 0;
    assert(a@.skip(0) =~= a@);
    assert(b@.skip(0) =~= b@);
    while i < a.len() && i < b.len()
        invariant
            i <= a@.len(),
            i <= b@.len(),
            lex_le(a@, b@) == lex_le(a@.skip(i as int), b@.skip(i as int)),
        decreases a@.len() - i,
    {
        if a[i] != b[i] {
            return a[i] < b[i];
        }
        assert(a@.skip(i as int).drop_first() =~= a@.skip(i + 1));
        assert(b@.skip(i as int).drop_first() =~= b@.skip(i + 1));
        i = i + 1;
    }
    i == a.len()
}

/// Compares two strings as Rust's `String` order does.
pub fn string_le(a: &String, b: &String) -> (r: bool)
    ensures
        r == text_le(a@, b@),
{
    let sa = a.as_str();
    let sb = b.as_str();
    bytes_le(sa.as_bytes(), sb.as_bytes())
}

/// Whether two strings are equal, compared by their UTF-8 bytes.
pub fn str_equal(a: &str, b: &str) -> (r: bool)
    ensures
        r == (a@ == b@),
{
    let x = a.as_bytes();
    let y = b.as_bytes();
    let same = x.len() == y.len() && bytes_le(x, y) && bytes_le(y, x);
    proof {
        broadcast use vstd::utf8::encode_utf8_decode_utf8;

        if same {
            lemma_lex_antisym(x@, y@);
            assert(vstd::utf8::decode_utf8(encode_utf8(a@)) == a@);
            assert(vstd::utf8::decode_utf8(encode_utf8(b@)) == b@);
        }
        if a@ == b@ {
            lemma_lex_total(x@, y@);
            if lex_le(x@, y@) {
                assert(x@ == y@);
                lemma_lex_refl(x@);
            } else {
                lemma_lex_refl(x@);
            }
        }
    }
    same
}

pub proof fn lemma_lex_refl(a: Seq<u8>)
    ensures
        lex_le(a, a),
{
    lemma_lex_total(a, a);
}

// ---------------------------------------------------------------------------
// Rankings: total preorders with an executable comparison.
// ---------------------------------------------------------------------------

/// A key by which records are listed: `may_precede` is a total preorder
/// ("may come first"); keys that may precede each other are ties.
pub trait Ranking: Sized {
    spec fn may_precede(self, other: Self) -> bool;

    fn decide_precede(&self, other: &Self) -> (b: bool)
        ensures
            b == self.may_precede(*other),
    ;

    proof fn lemma_precede_total(a: Self, b: Self)
        ensures
            a.may_precede(b) || b.may_precede(a),
    ;

    proof fn lemma_precede_trans(a: Self, b: Self, c: Self)
        requires
            a.may_precede(b),
            b.may_precede(c),
        ensures
            a.may_precede(c),
    ;
}

/// Larger numbers first.
pub struct HighFirst(pub u64);

impl Ranking for HighFirst {
    open spec fn may_precede(self, other: Self) -> bool {
        self.0 >= other.0
    }

    fn decide_precede(&self, other: &Self) -> (b: bool) {
        self.0 >= other.0
    }

    proof fn lemma_precede_total(a: Self, b: Self) {
    }

    proof fn lemma_precede_trans(a: Self, b: Self, c: Self) {
    }
}

/// Texts in ascending `String` order.
pub struct TextAscending(pub String);

impl Ranking for TextAscending {
    open spec fn may_precede(self, other: Self) -> bool {
        text_le(self.0@, other.0@)
    }

    fn decide_precede(&self, other: &Self) -> (b: bool) {
        string_le(&self.0, &other.0)
    }

    proof fn lemma_precede_total(a: Self, b: Self) {
        lemma_text_total(a.0@, b.0@);
    }

    proof fn lemma_precede_trans(a: Self, b: Self, c: Self) {
        lemma_text_trans(a.0@, b.0@, c.0@);
    }
}

/// Texts in descending `String` order.
pub struct TextDescending(pub String);

impl Ranking for TextDescending {
    open spec fn may_precede(self, other: Self) -> bool {
        text_le(other.0@, self.0@)
    }

    fn decide_precede(&self, other: &Self) -> (b: bool) {
        string_le(&other.0, &self.0)
    }

    proof fn lemma_precede_total(a: Self, b: Self) {
        lemma_text_total(a.0@, b.0@);
    }

    proof fn lemma_precede_trans(a: Self, b: Self, c: Self) {
        lemma_text_trans(c.0@, b.0@, a.0@);
    }
}

/// The fraction `num / den`, larger fractions first; a fraction with a zero
/// denominator comes after every other one.
pub struct RatioHighFirst {
    pub num: usize,
    pub den: usize,
}

/// `num_a / den_a >= num_b / den_b`, where a zero denominator is lowest.
pub open spec fn ratio_ge(num_a: int, den_a: int, num_b: int, den_b: int) -> bool {
    if den_b == 0 {
        true
    } else if den_a == 0 {
        false
    } else {
        num_a * den_b >= num_b * den_a
    }
}

proof fn lemma_ratio_trans(a: int, ad: int, b: int, bd: int, c: int, cd: int)
    requires
        a >= 0, ad > 0, b >= 0, bd > 0, c >= 0, cd > 0,
        a * bd >= b * ad,
        b * cd >= c * bd,
    ensures
        a * cd >= c * ad,
{
    assert(a * bd * cd >= b * ad * cd) by (nonlinear_arith)
        requires a * bd >= b * ad, cd > 0;
    assert(b * cd * ad >= c * bd * ad) by (nonlinear_arith)
        requires b * cd >= c * bd, ad > 0;
    assert(a * cd * bd >= c * ad * bd) by (nonlinear_arith)
        requires a * bd * cd >= b * ad * cd, b * cd * ad >= c * bd * ad;
    assert(a * cd >= c * ad) by (nonlinear_arith)
        requires a * cd * bd >= c * ad * bd, bd > 0;
}

proof fn lemma_small_product(a: u128, b: u128)
    requires
        a <= usize::MAX,
        b <= usize::MAX,
    ensures
        a * b <= u128::MAX,
{
    assert(usize::MAX <= 0xffff_ffff_ffff_ffffu128);
    assert(a * b <= 0xffff_ffff_ffff_ffffu128 * 0xffff_ffff_ffff_ffffu128) by (nonlinear_arith)
        requires a <= 0xffff_ffff_ffff_ffffu128, b <= 0xffff_ffff_ffff_ffffu128;
}

impl Ranking for RatioHighFirst {
    open spec fn may_precede(self, other: Self) -> bool {
        ratio_ge(self.num as int, self.den as int, other.num as int, other.den as int)
    }

    fn decide_precede(&self, other: &Self) -> (b: bool) {
        if other.den == 0 {
            true
        } else if self.den == 0 {
            false
        } else {
            let (a, b, c, d) = (self.num as u128, other.den as u128, other.num as u128, self.den as u128);
            proof {
                lemma_small_product(a, b);
                lemma_small_product(c, d);
            }
            a * b >= c * d
        }
    }

    proof fn lemma_precede_total(a: Self, b: Self) {
    }

    proof fn lemma_precede_trans(a: Self, b: Self, c: Self) {
        if c.den != 0 && a.den != 0 && b.den != 0 {
            lemma_ratio_trans(
                a.num as int,
                a.den as int,
                b.num as int,
                b.den as int,
                c.num as int,
                c.den as int,
            );
        }
    }
}

// ---------------------------------------------------------------------------
// Stable sorting by position.
// ---------------------------------------------------------------------------

/// Key `i` comes strictly before key `j`.
pub open spec fn strictly_precedes<K: Ranking>(a: K, b: K) -> bool {
    a.may_precede(b) && !b.may_precede(a)
}

/// In a stable sort of `keys`, the record at index `i` is listed before the
/// one at index `j`: its key comes first, or the keys tie and `i < j`.
pub open spec fn goes_before<K: Ranking>(keys: Seq<K>, i: int, j: int) -> bool {
    keys[i].may_precede(keys[j]) && (keys[j].may_precede(keys[i]) ==> i < j)
}

/// `ord` lists each of `0..n` exactly once.
pub open spec fn is_permutation(ord: Seq<usize>, n: nat) -> bool {
    &&& ord.len() == n
    &&& forall|p: int| 0 <= p < n ==> #[trigger] ord[p] < n
    &&& forall|p: int, q: int| 0 <= p < q < n ==> ord[p] != ord[q]
    &&& forall|i: usize| i < n ==> #[trigger] ord.contains(i)
}

/// `ord` is the outcome of a stable sort of `keys`: the indices of the records
/// in the order in which the sort lists them.
pub open spec fn is_stable_order<K: Ranking>(keys: Seq<K>, ord: Seq<usize>) -> bool {
    &&& is_permutation(ord, keys.len())
    &&& forall|p: int, q: int|
        0 <= p < q < ord.len() ==> goes_before(keys, #[trigger] ord[p] as int, #[trigger] ord[q] as int)
}

/// The stable order of a key sequence is unique: a stable sort is determined
/// by its input.
pub proof fn lemma_stable_order_unique<K: Ranking>(keys: Seq<K>, o1: Seq<usize>, o2: Seq<usize>)
    requires
        is_stable_order(keys, o1),
        is_stable_order(keys, o2),
    ensures
        o1 == o2,
{
    let n = keys.len();
    assert forall|p: int| 0 <= p < n implies o1[p] == o2[p] by {
        lemma_stable_prefix_agrees(keys, o1, o2, p);
    }
    assert(o1 =~= o2);
}

proof fn lemma_stable_prefix_agrees<K: Ranking>(keys: Seq<K>, o1: Seq<usize>, o2: Seq<usize>, p: int)
    requires
        is_stable_order(keys, o1),
        is_stable_order(keys, o2),
        0 <= p < keys.len(),
    ensures
        o1[p] == o2[p],
    decreases p,
{
    let n = keys.len();
    assert forall|r: int| 0 <= r < p implies o1[r] == o2[r] by {
        lemma_stable_prefix_agrees(keys, o1, o2, r);
    }
    let x = o1[p];
    let y = o2[p];
    if x != y {
        assert(o2.contains(x));
        let q = choose|q: int| 0 <= q < n && o2[q] == x;
        assert(o1.contains(y));
        let r = choose|r: int| 0 <= r < n && o1[r] == y;
        if q < p {
            assert(o1[q] == x);
        }
        if r < p {
            assert(o2[r] == y);
        }
        assert(q > p);
        assert(r > p);
        assert(goes_before(keys, y as int, x as int));
        assert(goes_before(keys, x as int, y as int));
    }
}

/// A key that strictly precedes `x` strictly precedes every key that `x` may precede.
proof fn lemma_strict_then_later<K: Ranking>(a: K, x: K, y: K)
    requires
        strictly_precedes(a, x),
        x.may_precede(y),
    ensures
        strictly_precedes(a, y),
{
    K::lemma_precede_trans(a, x, y);
    if y.may_precede(a) {
        K::lemma_precede_trans(x, y, a);
    }
}

/// Computes the stable order of `keys`: sorting `keys` stably lists the
/// record at index `ord[p]` at position `p`.
pub fn stable_order<K: Ranking>(keys: &Vec<K>) -> (ord: Vec<usize>)
    ensures
        is_stable_order(keys@, ord@),
{
    let n = keys.len();
    let mut ord: Vec<usize> = Vec::new();
    let mut k: usize = 0;
    while k < n
        invariant
            n == keys@.len(),
            k <= n,
            ord@.len() == k,
            forall|p: int| 0 <= p < k ==> #[trigger] ord@[p] < k,
            forall|p: int, q: int| 0 <= p < q < k ==> ord@[p] != ord@[q],
            forall|i: usize| i < k ==> #[trigger] ord@.contains(i),
            forall|p: int, q: int|
                0 <= p < q < k ==> goes_before(keys@, #[trigger] ord@[p] as int, #[trigger] ord@[q] as int),
        decreases n - k,
    {
        // binary search for the first listed record that the new one strictly precedes
        let mut lo: usize = 0;
        let mut hi: usize = k;
        while lo < hi
            invariant
                n == keys@.len(),
                k < n,
                ord@.len() == k,
                lo <= hi <= k,
                forall|p: int, q: int|
                    0 <= p < q < k ==> goes_before(keys@, #[trigger] ord@[p] as int, #[trigger] ord@[q] as int),
                forall|p: int| 0 <= p < k ==> #[trigger] ord@[p] < k,
                forall|q: int| 0 <= q < lo ==> !strictly_precedes(keys@[k as int], keys@[#[trigger] ord@[q] as int]),
                forall|q: int| hi <= q < k ==> strictly_precedes(keys@[k as int], keys@[#[trigger] ord@[q] as int]),
            decreases hi - lo,
        {
            let mid = lo + (hi - lo) / 2;
            let j = ord[mid];
            let a = keys[k].decide_precede(&keys[j]);
            let b = keys[j].decide_precede(&keys[k]);
            if a && !b {
                proof {
                    assert forall|q: int| mid <= q < k implies strictly_precedes(keys@[k as int], keys@[#[trigger] ord@[q] as int]) by {
                        if q > mid {
                            assert(goes_before(keys@, ord@[mid as int] as int, ord@[q] as int));
                            lemma_strict_then_later(keys@[k as int], keys@[ord@[mid as int] as int], keys@[ord@[q] as int]);
                        }
                    }
                }
                hi = mid;
            } else {
                proof {
                    assert forall|q: int| 0 <= q < mid + 1 implies !strictly_precedes(keys@[k as int], keys@[#[trigger] ord@[q] as int]) by {
                        if q < mid && strictly_precedes(keys@[k as int], keys@[ord@[q] as int]) {
                            assert(goes_before(keys@, ord@[q] as int, ord@[mid as int] as int));
                            lemma_strict_then_later(keys@[k as int], keys@[ord@[q] as int], keys@[ord@[mid as int] as int]);
                        }
                    }
                }
                lo = mid + 1;
            }
        }
        let pos = lo;
        let ghost old_ord = ord@;
        ord.insert(pos, k);
        proof {
            let s = ord@;
            assert(s =~= old_ord.insert(pos as int, k));
            assert forall|p: int| 0 <= p < k + 1 implies #[trigger] s[p] < k + 1 by {
                if p < pos {
                    assert(s[p] == old_ord[p]);
                } else if p > pos {
                    assert(s[p] == old_ord[p - 1]);
                }
            }
            assert forall|p: int, q: int| 0 <= p < q < k + 1 implies s[p] != s[q] by {
                if p < pos {
                    assert(s[p] == old_ord[p]);
                }
                if p > pos {
                    assert(s[p] == old_ord[p - 1]);
                }
                if q < pos {
                    assert(s[q] == old_ord[q]);
                }
                if q > pos {
                    assert(s[q] == old_ord[q - 1]);
                }
            }
            assert forall|i: usize| i < k + 1 implies #[trigger] s.contains(i) by {
                if i == k {
                    assert(s[pos as int] == k);
                } else {
                    assert(old_ord.contains(i));
                    let p = choose|p: int| 0 <= p < k && old_ord[p] == i;
                    if p < pos {
                        assert(s[p] == i);
                    } else {
                        assert(s[p + 1] == i);
                    }
                }
            }
            assert forall|p: int, q: int| 0 <= p < q < k + 1 implies goes_before(
                keys@,
                #[trigger] s[p] as int,
                #[trigger] s[q] as int,
            ) by {
                let kk = keys@[k as int];
                if p < pos && q < pos {
                    assert(s[p] == old_ord[p] && s[q] == old_ord[q]);
                } else if p < pos && q == pos {
                    assert(s[p] == old_ord[p]);
                    K::lemma_precede_total(kk, keys@[old_ord[p] as int]);
                } else if p < pos && q > pos {
                    assert(s[p] == old_ord[p] && s[q] == old_ord[q - 1]);
                } else if p == pos {
                    // the new record goes before every later one
                    let j = old_ord[q - 1];
                    assert(s[q] == j);
                    let first = keys@[old_ord[pos as int] as int];
                    if q - 1 > pos {
                        assert(goes_before(keys@, old_ord[pos as int] as int, j as int));
                        K::lemma_precede_trans(kk, first, keys@[j as int]);
                        if keys@[j as int].may_precede(kk) {
                            K::lemma_precede_trans(first, keys@[j as int], kk);
                        }
                    }
                } else {
                    assert(s[p] == old_ord[p - 1] && s[q] == old_ord[q - 1]);
                }
            }
        }
        k = k + 1;
    }
    ord
}

/// Lists the records of `items` in the order given by `ord`.
pub open spec fn permuted<T>(items: Seq<T>, ord: Seq<usize>) -> Seq<T> {
    Seq::new(ord.len(), |p: int| items[ord[p] as int])
}

/// Composes two orders: `out[p] == base[ord[p]]`.
pub fn compose_orders(base: &Vec<usize>, ord: &Vec<usize>) -> (out: Vec<usize>)
    requires
        forall|p: int| 0 <= p < ord@.len() ==> #[trigger] ord@[p] < base@.len(),
    ensures
        out@ == permuted(base@, ord@),
{
    let mut out: Vec<usize> = Vec::new();
    let mut p: usize = 0;
    while p < ord.len()
        invariant
            p <= ord@.len(),
            forall|q: int| 0 <= q < ord@.len() ==> #[trigger] ord@[q] < base@.len(),
            out@ =~= permuted(base@, ord@.take(p as int)),
        decreases ord@.len() - p,
    {
        out.push(base[ord[p]]);
        p = p + 1;
    }
    assert(ord@.take(ord@.len() as int) =~= ord@);
    out
}

/// The indices of `keys` sorted from the highest key down; equal keys stay
/// in index order.
pub fn order_high_first(keys: &Vec<u64>) -> (ord: Vec<usize>)
    ensures
        is_stable_order(high_first_keys(keys@), ord@),
{
    let mut ks: Vec<HighFirst> = Vec::new();
    let mut i: usize = 0;
    while i < keys.len()
        invariant
            i <= keys@.len(),
            ks@ =~= high_first_keys(keys@.take(i as int)),
        decreases keys@.len() - i,
    {
        ks.push(HighFirst(keys[i]));
        i = i + 1;
    }
    assert(keys@.take(keys@.len() as int) =~= keys@);
    stable_order(&ks)
}

/// The keys `keys` as `HighFirst` keys.
pub open spec fn high_first_keys(keys: Seq<u64>) -> Seq<HighFirst> {
    Seq::new(keys.len(), |i: int| HighFirst(keys[i]))
}

// ---------------------------------------------------------------------------
// Sums over a selection of records.
// ---------------------------------------------------------------------------

/// The sum of a sequence of numbers.
pub open spec fn sum_nat(s: Seq<nat>) -> nat
    decreases s.len(),
{
    if s.len() == 0 {
        0
    } else {
        sum_nat(s.drop_last()) + s.last()
    }
}

/// The numbers `ws` at the indices `ord`, in that order.
pub open spec fn picked(ws: Seq<nat>, ord: Seq<usize>) -> Seq<nat> {
    Seq::new(ord.len(), |p: int| ws[ord[p] as int])
}

pub proof fn lemma_sum_remove(s: Seq<nat>, k: int)
    requires
        0 <= k < s.len(),
    ensures
        sum_nat(s) == sum_nat(s.remove(k)) + s[k],
    decreases s.len(),
{
    if k == s.len() - 1 {
        assert(s.remove(k) =~= s.drop_last());
    } else {
        lemma_sum_remove(s.drop_last(), k);
        assert(s.remove(k).drop_last() =~= s.drop_last().remove(k));
        assert(s.remove(k).last() == s.last());
    }
}

pub proof fn lemma_sum_prefix(s: Seq<nat>, n: int)
    requires
        0 <= n <= s.len(),
    ensures
        sum_nat(s.take(n)) <= sum_nat(s),
    decreases s.len(),
{
    if n < s.len() {
        lemma_sum_prefix(s.drop_last(), n);
        assert(s.drop_last().take(n) =~= s.take(n));
    } else {
        assert(s.take(n) =~= s);
    }
}

/// Summing over distinct indices gives at most the whole sum, and exactly the
/// whole sum when every index is taken.
pub proof fn lemma_sum_picked(ws: Seq<nat>, ord: Seq<usize>)
    requires
        ws.len() <= usize::MAX,
        forall|p: int| 0 <= p < ord.len() ==> #[trigger] ord[p] < ws.len(),
        forall|p: int, q: int| 0 <= p < q < ord.len() ==> ord[p] != ord[q],
    ensures
        sum_nat(picked(ws, ord)) <= sum_nat(ws),
        is_permutation(ord, ws.len()) ==> sum_nat(picked(ws, ord)) == sum_nat(ws),
    decreases ws.len(),
{
    let n = ws.len();
    if n == 0 {
        if ord.len() > 0 {
            assert(ord[0] < ws.len());
        }
        assert(picked(ws, ord) =~= Seq::<nat>::empty());
    } else {
        let last = (n - 1) as usize;
        let init = ws.drop_last();
        if ord.contains(last) {
            let k = choose|k: int| 0 <= k < ord.len() && ord[k] == last;
            let rest = ord.remove(k);
            assert forall|p: int| 0 <= p < rest.len() implies #[trigger] rest[p] < init.len() by {
                if p < k {
                    assert(rest[p] == ord[p]);
                } else {
                    assert(rest[p] == ord[p + 1]);
                }
            }
            assert forall|p: int, q: int| 0 <= p < q < rest.len() implies rest[p] != rest[q] by {
                if p < k {
                    assert(rest[p] == ord[p]);
                } else {
                    assert(rest[p] == ord[p + 1]);
                }
                if q < k {
                    assert(rest[q] == ord[q]);
                } else {
                    assert(rest[q] == ord[q + 1]);
                }
            }
            lemma_sum_picked(init, rest);
            lemma_sum_remove(picked(ws, ord), k);
            assert(picked(ws, ord).remove(k) =~= picked(init, rest));
            assert(picked(ws, ord)[k] == ws.last());
            assert(sum_nat(ws) == sum_nat(init) + ws.last());
            if is_permutation(ord, n) {
                assert forall|i: usize| i < init.len() implies #[trigger] rest.contains(i) by {
                    assert(ord.contains(i));
                    let q = choose|q: int| 0 <= q < ord.len() && ord[q] == i;
                    if q < k {
                        assert(rest[q] == i);
                    } else {
                        assert(q != k);
                        assert(rest[q - 1] == i);
                    }
                }
                assert(is_permutation(rest, init.len()));
            }
        } else {
            assert forall|p: int| 0 <= p < ord.len() implies #[trigger] ord[p] < init.len() by {
                if ord[p] == last {
                    assert(ord.contains(last));
                }
            }
            lemma_sum_picked(init, ord);
            assert(picked(ws, ord) =~= picked(init, ord));
            if is_permutation(ord, n) {
                assert(ord.contains(last));
            }
        }
    }
}

} // verus!
