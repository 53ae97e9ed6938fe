//! Ordered keys, and sets and tables that keep their keys in order.
//!
//! Everything the library reports or plans comes out in the order of its
//! keys, so that two runs on the same input say the same thing in the same
//! order.
use vstd::prelude::*;
use vstd::utf8::encode_utf8;

verus! {

/// A strict total order.
pub open spec fn strict_order<T>(lt: spec_fn(T, T) -> bool) -> bool {
    &&& forall|a: T| !#[trigger] lt(a, a)
    &&& forall|a: T, b: T, c: T| #[trigger] lt(a, b) && #[trigger] lt(b, c) ==> lt(a, c)
    &&& forall|a: T, b: T| #[trigger] lt(a, b) || a == b || lt(b, a)
}

/// Lexicographic order: the first place where the two differ decides, and a
/// proper prefix comes first.
pub open spec fn lex<T>(lt: spec_fn(T, T) -> bool, a: Seq<T>, b: Seq<T>) -> bool
    decreases b.len(),
{
    if b.len() == 0 {
        false
    } else if a.len() == 0 {
        true
    } else if a[0] == b[0] {
        lex(lt, a.drop_first(), b.drop_first())
    } else {
        lt(a[0], b[0])
    }
}

proof fn lemma_lex_irreflexive<T>(lt: spec_fn(T, T) -> bool, a: Seq<T>)
    ensures
        !lex(lt, a, a),
    decreases a.len(),
{
    if a.len() > 0 {
        lemma_lex_irreflexive(lt, a.drop_first());
    }
}

proof fn lemma_lex_transitive<T>(lt: spec_fn(T, T) -> bool, a: Seq<T>, b: Seq<T>, c: Seq<T>)
    requires
        strict_order(lt),
        lex(lt, a, b),
        lex(lt, b, c),
    ensures
        lex(lt, a, c),
    decreases b.len(),
{
    if a.len() > 0 && b.len() > 0 && c.len() > 0 {
        if a[0] == b[0] && b[0] == c[0] {
            lemma_lex_transitive(lt, a.drop_first(), b.drop_first(), c.drop_first());
        } else if a[0] == c[0] {
            assert(lt(a[0], b[0]) && lt(b[0], c[0]) ==> lt(a[0], c[0]));
            assert(!lt(a[0], a[0]));
        }
    }
}

proof fn lemma_lex_total<T>(lt: spec_fn(T, T) -> bool, a: Seq<T>, b: Seq<T>)
    requires
        strict_order(lt),
    ensures
        lex(lt, a, b) || a == b || lex(lt, b, a),
    decreases b.len(),
{
    if a.len() == 0 || b.len() == 0 {
        if a.len() == 0 && b.len() == 0 {
            assert(a =~= b);
        }
    } else if a[0] == b[0] {
        lemma_lex_total(lt, a.drop_first(), b.drop_first());
        if a.drop_first() == b.drop_first() {
            assert(a =~= seq![a[0]] + a.drop_first());
            assert(b =~= seq![b[0]] + b.drop_first());
        }
    } else {
        assert(lt(a[0], b[0]) || lt(b[0], a[0]));
    }
}

/// A lexicographic order over a strict total order is one too.
pub proof fn lemma_lex_strict_order<T>(lt: spec_fn(T, T) -> bool)
    requires
        strict_order(lt),
    ensures
        strict_order(|a: Seq<T>, b: Seq<T>| lex(lt, a, b)),
{
    let f = |a: Seq<T>, b: Seq<T>| lex(lt, a, b);
    assert forall|a: Seq<T>| !#[trigger] f(a, a) by {
        lemma_lex_irreflexive(lt, a);
    }
    assert forall|a: Seq<T>, b: Seq<T>, c: Seq<T>| #[trigger] f(a, b) && #[trigger] f(
        b,
        c,
    ) implies f(a, c) by {
        lemma_lex_transitive(lt, a, b, c);
    }
    assert forall|a: Seq<T>, b: Seq<T>| #[trigger] f(a, b) || a == b || f(b, a) by {
        lemma_lex_total(lt, a, b);
    }
}

/// The order of text: by the bytes of its encoding.
pub open spec fn text_before(a: Seq<char>, b: Seq<char>) -> bool {
    lex(|x: u8, y: u8| x < y, encode_utf8(a), encode_utf8(b))
}

/// The order of text is a strict total order.
pub proof fn lemma_text_order()
    ensures
        strict_order(|a: Seq<char>, b: Seq<char>| text_before(a, b)),
{
    let byte = |x: u8, y: u8| x < y;
    lemma_lex_strict_order(byte);
    let bytes = |a: Seq<u8>, b: Seq<u8>| lex(byte, a, b);
    let f = |a: Seq<char>, b: Seq<char>| text_before(a, b);
    assert forall|a: Seq<char>| !#[trigger] f(a, a) by {
        assert(!bytes(encode_utf8(a), encode_utf8(a)));
    }
    assert forall|a: Seq<char>, b: Seq<char>, c: Seq<char>| #[trigger] f(a, b) && #[trigger] f(
        b,
        c,
    ) implies f(a, c) by {
        assert(bytes(encode_utf8(a), encode_utf8(b)));
        assert(bytes(encode_utf8(b), encode_utf8(c)));
    }
    assert forall|a: Seq<char>, b: Seq<char>| #[trigger] f(a, b) || a == b || f(b, a) by {
        assert(bytes(encode_utf8(a), encode_utf8(b)) || encode_utf8(a) == encode_utf8(b) || bytes(
            encode_utf8(b),
            encode_utf8(a),
        ));
        if encode_utf8(a) == encode_utf8(b) {
            crate::text::lemma_encode_injective(a, b);
        }
    }
}

/// Whether the text `a` comes before the text `b`.
pub fn is_text_before(a: &str, b: &str) -> (r: bool)
    ensures
        r == text_before(a@, b@),
{
    is_bytes_before(a.as_bytes(), b.as_bytes())
}

/// Whether the bytes `x` come before the bytes `y`.
pub fn is_bytes_before(x: &[u8], y: &[u8]) -> (r: bool)
    ensures
        r == bytes_before(x@, y@),
{
    let ghost byte = |x: u8, y: u8| x < y;
    let mut i: usize = 0;
    assert(x@.skip(0) =~= x@ && y@.skip(0) =~= y@);
    while i < x.len() && i < y.len()
        invariant
            i <= x@.len(),
            i <= y@.len(),
            byte == (|x: u8, y: u8| x < y),
            lex(byte, x@, y@) == lex(byte, x@.skip(i as int), y@.skip(i as int)),
        decreases x@.len() - i,
    {
        assert(x@.skip(i as int)[0] == x@[i as int]);
        assert(y@.skip(i as int)[0] == y@[i as int]);
        if x[i] != y[i] {
            return x[i] < y[i];
        }
        assert(x@.skip(i as int).drop_first() =~= x@.skip(i + 1));
        assert(y@.skip(i as int).drop_first() =~= y@.skip(i + 1));
        i += 1;
    }
    x.len() < y.len()
}

/// A key: a value with an order on what it stands for.
pub trait Key: View + Sized {
    /// The order of keys.
    spec fn before(a: Self::V, b: Self::V) -> bool;

    /// The order is a strict total order.
    proof fn lemma_key_order()
        ensures
            strict_order(|a: Self::V, b: Self::V| Self::before(a, b)),
    ;

    /// Whether this key comes before `other`.
    fn is_before(&self, other: &Self) -> (r: bool)
        ensures
            r == Self::before(self@, other@),
    ;
}

impl Key for String {
    open spec fn before(a: Seq<char>, b: Seq<char>) -> bool {
        text_before(a, b)
    }

    proof fn lemma_key_order() {
        lemma_text_order();
        let f = |a: Seq<char>, b: Seq<char>| text_before(a, b);
        let g = |a: Seq<char>, b: Seq<char>| Self::before(a, b);
        assert(f =~= g);
    }

    fn is_before(&self, other: &Self) -> (r: bool) {
        let r = is_text_before(self.as_str(), other.as_str());
        assert(String::before(self@, other@) == text_before(self@, other@));
        r
    }
}

/// The order of byte strings.
pub open spec fn bytes_before(a: Seq<u8>, b: Seq<u8>) -> bool {
    lex(|x: u8, y: u8| x < y, a, b)
}

impl Key for Vec<u8> {
    open spec fn before(a: Seq<u8>, b: Seq<u8>) -> bool {
        bytes_before(a, b)
    }

    proof fn lemma_key_order() {
        let byte = |x: u8, y: u8| x < y;
        lemma_lex_strict_order(byte);
        let f = |a: Seq<u8>, b: Seq<u8>| lex(byte, a, b);
        let g = |a: Seq<u8>, b: Seq<u8>| Self::before(a, b);
        assert(f =~= g);
    }

    fn is_before(&self, other: &Self) -> (r: bool) {
        let r = is_bytes_before(self.as_slice(), other.as_slice());
        assert(Vec::<u8>::before(self@, other@) == bytes_before(self@, other@));
        r
    }
}

/// Keys in strictly ascending order.
pub open spec fn ascending<K: Key>(keys: Seq<K::V>) -> bool {
    forall|i: int, j: int| 0 <= i < j < keys.len() ==> K::before(#[trigger] keys[i], #[trigger] keys[j])
}

/// The elements of a finite set of keys in ascending order.
pub open spec fn in_order<K: Key>(keys: Set<K::V>) -> Seq<K::V> {
    choose|s: Seq<K::V>| ascending::<K>(s) && s.to_set() == keys
}

/// No key occurs twice in an ascending list.
pub proof fn lemma_ascending_distinct<K: Key>(keys: Seq<K::V>)
    requires
        ascending::<K>(keys),
    ensures
        keys.no_duplicates(),
{
    K::lemma_key_order();
    let lt = |a: K::V, b: K::V| K::before(a, b);
    assert forall|i: int, j: int| 0 <= i < keys.len() && 0 <= j < keys.len() && i != j implies keys[i]
        != keys[j] by {
        assert(!lt(keys[i], keys[i]) && !lt(keys[j], keys[j]));
        if i < j {
            assert(K::before(keys[i], keys[j]));
        } else {
            assert(K::before(keys[j], keys[i]));
        }
    }
}

/// A set of keys has one ascending enumeration.
pub proof fn lemma_ascending_unique<K: Key>(a: Seq<K::V>, b: Seq<K::V>)
    requires
        ascending::<K>(a),
        ascending::<K>(b),
        a.to_set() == b.to_set(),
    ensures
        a == b,
    decreases a.len(),
{
    K::lemma_key_order();
    let lt = |a: K::V, b: K::V| K::before(a, b);
    if a.len() == 0 {
        if b.len() > 0 {
            assert(b.to_set().contains(b[0]));
        }
        assert(a =~= b);
    } else {
        assert(a.to_set().contains(a[0]));
        assert(b.contains(a[0]));
        assert(b.to_set().contains(b[0]));
        assert(a.contains(b[0]));
        let i = choose|i: int| 0 <= i < b.len() && b[i] == a[0];
        let j = choose|j: int| 0 <= j < a.len() && a[j] == b[0];
        if i != 0 && j != 0 {
            assert(K::before(b[0], b[i]));
            assert(K::before(a[0], a[j]));
            assert(lt(a[0], b[0]) && lt(b[0], a[0]));
            assert(lt(a[0], a[0]));
        }
        assert(a[0] == b[0]);
        let x = a.drop_first();
        let y = b.drop_first();
        assert forall|k: K::V| x.to_set().contains(k) <==> y.to_set().contains(k) by {
            if x.contains(k) {
                let p = choose|p: int| 0 <= p < x.len() && x[p] == k;
                assert(a[p + 1] == k);
                assert(a.to_set().contains(k));
                assert(b.contains(k));
                let q = choose|q: int| 0 <= q < b.len() && b[q] == k;
                assert(K::before(a[0], a[p + 1]));
                assert(!lt(a[0], a[0]));
                assert(q != 0);
                assert(y[q - 1] == k);
            }
            if y.contains(k) {
                let p = choose|p: int| 0 <= p < y.len() && y[p] == k;
                assert(b[p + 1] == k);
                assert(b.to_set().contains(k));
                assert(a.contains(k));
                let q = choose|q: int| 0 <= q < a.len() && a[q] == k;
                assert(K::before(b[0], b[p + 1]));
                assert(!lt(b[0], b[0]));
                assert(q != 0);
                assert(x[q - 1] == k);
            }
        }
        assert(x.to_set() =~= y.to_set());
        lemma_ascending_unique::<K>(x, y);
        assert(a =~= seq![a[0]] + x);
        assert(b =~= seq![b[0]] + y);
    }
}

/// An ascending enumeration of a set is the one that `in_order` names.
pub proof fn lemma_in_order<K: Key>(s: Seq<K::V>)
    requires
        ascending::<K>(s),
    ensures
        in_order::<K>(s.to_set()) == s,
{
    let t = in_order::<K>(s.to_set());
    assert(ascending::<K>(t) && t.to_set() == s.to_set());
    lemma_ascending_unique::<K>(s, t);
}

/// A finite set of keys has an ascending enumeration.
pub proof fn lemma_in_order_finite<K: Key>(keys: Set<K::V>)
    requires
        keys.finite(),
    ensures
        ascending::<K>(in_order::<K>(keys)),
        in_order::<K>(keys).to_set() == keys,
    decreases keys.len(),
{
    if keys.len() == 0 {
        let s = Seq::<K::V>::empty();
        assert(s.to_set() =~= keys);
        assert(ascending::<K>(s));
    } else {
        let a = keys.choose();
        let rest = keys.remove(a);
        lemma_in_order_finite::<K>(rest);
        let s = in_order::<K>(rest);
        assert(!s.contains(a)) by {
            if s.contains(a) {
                assert(s.to_set().contains(a));
            }
        }
        let at = lemma_place::<K>(s, a);
        lemma_insert_ascending::<K>(s, at, a);
        assert(rest.insert(a) =~= keys);
        assert(ascending::<K>(s.insert(at, a)) && s.insert(at, a).to_set() == keys);
    }
}

/// Where a key belongs among ascending keys that do not hold it.
proof fn lemma_place<K: Key>(s: Seq<K::V>, a: K::V) -> (at: int)
    requires
        ascending::<K>(s),
        !s.contains(a),
    ensures
        0 <= at <= s.len(),
        forall|i: int| 0 <= i < at ==> K::before(#[trigger] s[i], a),
        forall|i: int| at <= i < s.len() ==> K::before(a, #[trigger] s[i]),
    decreases s.len(),
{
    K::lemma_key_order();
    let lt = |a: K::V, b: K::V| K::before(a, b);
    if s.len() == 0 {
        0
    } else {
        let last = s[s.len() - 1];
        assert(lt(last, a) || last == a || lt(a, last));
        assert(last != a) by {
            if last == a {
                assert(s.contains(a));
            }
        }
        if lt(last, a) {
            assert forall|i: int| 0 <= i < s.len() implies K::before(#[trigger] s[i], a) by {
                if i < s.len() - 1 {
                    assert(K::before(s[i], s[s.len() - 1]));
                    assert(lt(s[i], last) && lt(last, a));
                }
            }
            s.len() as int
        } else {
            let front = s.drop_last();
            assert forall|i: int, j: int| 0 <= i < j < front.len() implies K::before(
                #[trigger] front[i],
                #[trigger] front[j],
            ) by {
                assert(K::before(s[i], s[j]));
            }
            assert(!front.contains(a)) by {
                if front.contains(a) {
                    let i = choose|i: int| 0 <= i < front.len() && front[i] == a;
                    assert(s[i] == a);
                }
            }
            let at = lemma_place::<K>(front, a);
            assert forall|i: int| 0 <= i < at implies K::before(#[trigger] s[i], a) by {
                assert(front[i] == s[i]);
            }
            assert forall|i: int| at <= i < s.len() implies K::before(a, #[trigger] s[i]) by {
                if i < s.len() - 1 {
                    assert(front[i] == s[i]);
                }
            }
            at
        }
    }
}

/// The views of a list of keys.
pub open spec fn key_views<K: Key>(keys: Seq<K>) -> Seq<K::V> {
    keys.map_values(|k: K| k@)
}

/// Where `key` stands or belongs among ascending `keys`.
fn seek<K: Key>(keys: &Vec<K>, key: &K) -> (r: (usize, bool))
    requires
        ascending::<K>(key_views(keys@)),
    ensures
        r.0 <= keys@.len(),
        forall|i: int| 0 <= i < r.0 ==> K::before(#[trigger] keys@[i]@, key@),
        r.1 ==> r.0 < keys@.len() && keys@[r.0 as int]@ == key@,
        !r.1 ==> forall|i: int| r.0 <= i < keys@.len() ==> K::before(key@, #[trigger] keys@[i]@),
        r.1 == key_views(keys@).contains(key@),
{
    let ghost views = key_views(keys@);
    let ghost lt = |a: K::V, b: K::V| K::before(a, b);
    proof {
        K::lemma_key_order();
        assert forall|i: int| 0 <= i < keys@.len() implies views[i] == #[trigger] keys@[i]@ by {}
    }
    let mut i: usize = 0;
    while i < keys.len()
        invariant
            i <= keys@.len(),
            strict_order(lt),
            lt == (|a: K::V, b: K::V| K::before(a, b)),
            views == key_views(keys@),
            ascending::<K>(views),
            forall|j: int| 0 <= j < i ==> K::before(#[trigger] keys@[j]@, key@),
        decreases keys@.len() - i,
    {
        if !keys[i].is_before(key) {
            if key.is_before(&keys[i]) {
                proof {
                    assert forall|j: int| i <= j < keys@.len() implies K::before(
                        key@,
                        #[trigger] keys@[j]@,
                    ) by {
                        if j > i {
                            assert(K::before(views[i as int], views[j]));
                            assert(lt(key@, keys@[i as int]@) && lt(keys@[i as int]@, keys@[j]@));
                        }
                    }
                    if views.contains(key@) {
                        let j = choose|j: int| 0 <= j < views.len() && views[j] == key@;
                        assert(keys@[j]@ == key@);
                        assert(!lt(key@, key@));
                        assert(false);
                    }
                }
                return (i, false);
            }
            proof {
                assert(!lt(keys@[i as int]@, key@) && !lt(key@, keys@[i as int]@));
                assert(keys@[i as int]@ == key@);
                assert(views[i as int] == key@);
            }
            return (i, true);
        }
        i += 1;
    }
    proof {
        if views.contains(key@) {
            let j = choose|j: int| 0 <= j < views.len() && views[j] == key@;
            assert(keys@[j]@ == key@);
            assert(!lt(key@, key@));
            assert(false);
        }
    }
    (i, false)
}

/// What inserting a key at its place does to the keys.
proof fn lemma_insert_ascending<K: Key>(keys: Seq<K::V>, at: int, key: K::V)
    requires
        ascending::<K>(keys),
        0 <= at <= keys.len(),
        forall|i: int| 0 <= i < at ==> K::before(#[trigger] keys[i], key),
        forall|i: int| at <= i < keys.len() ==> K::before(key, #[trigger] keys[i]),
    ensures
        ascending::<K>(keys.insert(at, key)),
        keys.insert(at, key).to_set() == keys.to_set().insert(key),
{
    let more = keys.insert(at, key);
    assert forall|i: int, j: int| 0 <= i < j < more.len() implies K::before(
        #[trigger] more[i],
        #[trigger] more[j],
    ) by {
        let a = if i < at { i } else { i - 1 };
        let b = if j < at { j } else { j - 1 };
        if i != at && j != at {
            assert(more[i] == keys[a] && more[j] == keys[b]);
        } else if i == at {
            assert(more[j] == keys[b]);
        } else {
            assert(more[i] == keys[a]);
        }
    }
    assert forall|k: K::V| more.to_set().contains(k) <==> keys.to_set().insert(key).contains(k) by {
        if more.contains(k) {
            let p = choose|p: int| 0 <= p < more.len() && more[p] == k;
            if p < at {
                assert(keys[p] == k);
            } else if p > at {
                assert(keys[p - 1] == k);
            }
        }
        if keys.contains(k) {
            let p = choose|p: int| 0 <= p < keys.len() && keys[p] == k;
            if p < at {
                assert(more[p] == k);
            } else {
                assert(more[p + 1] == k);
            }
        }
        assert(more[at] == key);
    }
    assert(more.to_set() =~= keys.to_set().insert(key));
}

/// What removing the key at a place does to the keys.
proof fn lemma_remove_ascending<K: Key>(keys: Seq<K::V>, at: int)
    requires
        ascending::<K>(keys),
        0 <= at < keys.len(),
    ensures
        ascending::<K>(keys.remove(at)),
        keys.remove(at).to_set() == keys.to_set().remove(keys[at]),
{
    K::lemma_key_order();
    let lt = |a: K::V, b: K::V| K::before(a, b);
    let less = keys.remove(at);
    assert forall|i: int, j: int| 0 <= i < j < less.len() implies K::before(
        #[trigger] less[i],
        #[trigger] less[j],
    ) by {
        let a = if i < at { i } else { i + 1 };
        let b = if j < at { j } else { j + 1 };
        assert(less[i] == keys[a] && less[j] == keys[b]);
    }
    assert forall|k: K::V| less.to_set().contains(k) <==> keys.to_set().remove(keys[at]).contains(k) by {
        if less.contains(k) {
            let p = choose|p: int| 0 <= p < less.len() && less[p] == k;
            let q = if p < at { p } else { p + 1 };
            assert(keys[q] == k);
            assert(!lt(k, k));
            if q < at {
                assert(K::before(keys[q], keys[at]));
            } else {
                assert(K::before(keys[at], keys[q]));
            }
        }
        if keys.contains(k) && k != keys[at] {
            let p = choose|p: int| 0 <= p < keys.len() && keys[p] == k;
            if p < at {
                assert(less[p] == k);
            } else {
                assert(less[p - 1] == k);
            }
        }
    }
    assert(less.to_set() =~= keys.to_set().remove(keys[at]));
}

/// A set of keys, kept in order.
#[derive(Debug, PartialEq, Eq)]
pub struct KeySet<K: Key> {
    items: Vec<K>,
}

impl<K: Key> View for KeySet<K> {
    type V = Set<K::V>;

    closed spec fn view(&self) -> Set<K::V> {
        key_views(self.items@).to_set()
    }
}

impl<K: Key> Default for KeySet<K> {
    fn default() -> (r: Self)
        ensures
            r@ == Set::<K::V>::empty(),
    {
        KeySet::new()
    }
}

impl<K: Key> KeySet<K> {
    /// The keys are in ascending order.
    #[verifier::type_invariant]
    spec fn wf(&self) -> bool {
        ascending::<K>(key_views(self.items@))
    }

    /// The keys in order.
    pub open spec fn keys(&self) -> Seq<K::V> {
        in_order::<K>(self@)
    }

    /// The empty set.
    pub fn new() -> (r: Self)
        ensures
            r@ == Set::<K::V>::empty(),
    {
        let r = KeySet { items: Vec::new() };
        assert(r@ =~= Set::<K::V>::empty());
        r
    }

    /// The number of keys.
    pub fn len(&self) -> (r: usize)
        ensures
            r == self.keys().len(),
            self.keys().to_set() == self@,
            ascending::<K>(self.keys()),
            r == 0 <==> self@ == Set::<K::V>::empty(),
    {
        proof {
            use_type_invariant(self);
            lemma_in_order::<K>(key_views(self.items@));
            if self.items@.len() == 0 {
                assert(self@ =~= Set::<K::V>::empty());
            } else {
                assert(key_views(self.items@)[0] == self.items@[0]@);
                assert(self@.contains(self.items@[0]@));
            }
        }
        self.items.len()
    }

    /// Whether there is no key.
    pub fn is_empty(&self) -> (r: bool)
        ensures
            r <==> self@ == Set::<K::V>::empty(),
    {
        self.len() == 0
    }

    /// The key at a place in the order.
    pub fn at(&self, i: usize) -> (r: &K)
        requires
            i < self.keys().len(),
        ensures
            r@ == self.keys()[i as int],
            self@.contains(r@),
    {
        proof {
            use_type_invariant(self);
            lemma_in_order::<K>(key_views(self.items@));
            assert(key_views(self.items@)[i as int] == self.items@[i as int]@);
            assert(key_views(self.items@).contains(self.items@[i as int]@));
        }
        &self.items[i]
    }

    /// Whether the set holds `key`.
    pub fn contains(&self, key: &K) -> (r: bool)
        ensures
            r == self@.contains(key@),
    {
        proof {
            use_type_invariant(self);
        }
        let (_at, found) = seek(&self.items, key);
        found
    }

    /// Adds a key; says whether it is new.
    pub fn insert(&mut self, key: K) -> (r: bool)
        ensures
            final(self)@ == old(self)@.insert(key@),
            r == !old(self)@.contains(key@),
    {
        proof {
            use_type_invariant(&*self);
        }
        let (at, found) = seek(&self.items, &key);
        let ghost before = key_views(self.items@);
        if found {
            assert(self@ =~= self@.insert(key@));
            return false;
        }
        proof {
            lemma_insert_ascending::<K>(before, at as int, key@);
        }
        let ghost k = key@;
        let mut items: Vec<K> = Vec::new();
        std::mem::swap(&mut items, &mut self.items);
        items.insert(at, key);
        assert(key_views(items@) =~= before.insert(at as int, k));
        self.items = items;
        true
    }
}

/// The two columns of a table.
#[derive(Debug, PartialEq, Eq)]
struct Columns<K, T> {
    keys: Vec<K>,
    values: Vec<T>,
}

/// A table from keys to values, kept in the order of the keys.
#[derive(Debug, PartialEq, Eq)]
pub struct Table<K: Key, T: View> {
    columns: Columns<K, T>,
}

impl<K: Key, T: View> View for Table<K, T> {
    type V = Map<K::V, T::V>;

    closed spec fn view(&self) -> Map<K::V, T::V> {
        table_map(self.columns)
    }
}

impl<K: Key, T: View> Default for Table<K, T> {
    fn default() -> (r: Self)
        ensures
            r@ == Map::<K::V, T::V>::empty(),
    {
        Table::new()
    }
}

spec fn table_map<K: Key, T: View>(c: Columns<K, T>) -> Map<K::V, T::V> {
    Map::new(
        |k: K::V| key_views(c.keys@).contains(k),
        |k: K::V| c.values@[key_views(c.keys@).index_of(k)]@,
    )
}

spec fn aligned<K: Key, T>(c: Columns<K, T>) -> bool {
    &&& c.keys@.len() == c.values@.len()
    &&& ascending::<K>(key_views(c.keys@))
}

proof fn lemma_lookup<K: Key, T: View>(c: Columns<K, T>, i: int)
    requires
        aligned(c),
        0 <= i < c.keys@.len(),
    ensures
        table_map(c).contains_key(c.keys@[i]@),
        table_map(c)[c.keys@[i]@] == c.values@[i]@,
{
    K::lemma_key_order();
    let lt = |a: K::V, b: K::V| K::before(a, b);
    let views = key_views(c.keys@);
    let k = c.keys@[i]@;
    assert(views[i] == k);
    assert(views.contains(k));
    let j = views.index_of(k);
    assert(0 <= j < views.len() && views[j] == k);
    assert(!lt(k, k));
    if i < j {
        assert(K::before(views[i], views[j]));
    } else if j < i {
        assert(K::before(views[j], views[i]));
    }
}

proof fn lemma_keys<K: Key, T: View>(c: Columns<K, T>)
    requires
        aligned(c),
    ensures
        table_map(c).dom() == key_views(c.keys@).to_set(),
        in_order::<K>(table_map(c).dom()) == key_views(c.keys@),
{
    assert(table_map(c).dom() =~= key_views(c.keys@).to_set());
    lemma_in_order::<K>(key_views(c.keys@));
}

impl<K: Key, T: View> Table<K, T> {
    /// The keys are in ascending order, one value to each.
    #[verifier::type_invariant]
    spec fn wf(&self) -> bool {
        aligned(self.columns)
    }

    /// The keys in order.
    pub open spec fn keys(&self) -> Seq<K::V> {
        in_order::<K>(self@.dom())
    }

    /// The empty table.
    pub fn new() -> (r: Self)
        ensures
            r@ == Map::<K::V, T::V>::empty(),
    {
        let r = Table { columns: Columns { keys: Vec::new(), values: Vec::new() } };
        assert(r@ =~= Map::<K::V, T::V>::empty());
        r
    }

    /// The number of keys.
    pub fn len(&self) -> (r: usize)
        ensures
            r == self.keys().len(),
            self.keys().to_set() == self@.dom(),
            ascending::<K>(self.keys()),
    {
        proof {
            use_type_invariant(self);
            lemma_keys(self.columns);
        }
        self.columns.keys.len()
    }

    /// Whether there is no key.
    pub fn is_empty(&self) -> (r: bool)
        ensures
            r <==> self@ == Map::<K::V, T::V>::empty(),
    {
        proof {
            use_type_invariant(self);
            if self.columns.keys@.len() == 0 {
                assert(self@ =~= Map::<K::V, T::V>::empty());
            } else {
                lemma_lookup(self.columns, 0);
            }
        }
        self.columns.keys.len() == 0
    }

    /// The key at a place in the order.
    pub fn key_at(&self, i: usize) -> (r: &K)
        requires
            i < self.keys().len(),
        ensures
            r@ == self.keys()[i as int],
            self@.contains_key(r@),
    {
        proof {
            use_type_invariant(self);
            lemma_keys(self.columns);
            lemma_lookup(self.columns, i as int);
        }
        &self.columns.keys[i]
    }

    /// The value at a place in the order.
    pub fn value_at(&self, i: usize) -> (r: &T)
        requires
            i < self.keys().len(),
        ensures
            self@.contains_key(self.keys()[i as int]),
            r@ == self@[self.keys()[i as int]],
    {
        proof {
            use_type_invariant(self);
            lemma_keys(self.columns);
            lemma_lookup(self.columns, i as int);
        }
        &self.columns.values[i]
    }

    /// The value of a key.
    pub fn get(&self, key: &K) -> (r: Option<&T>)
        ensures
            r is Some <==> self@.contains_key(key@),
            r matches Some(v) ==> v@ == self@[key@],
    {
        proof {
            use_type_invariant(self);
        }
        let (at, found) = seek(&self.columns.keys, key);
        if found {
            proof {
                lemma_lookup(self.columns, at as int);
            }
            Some(&self.columns.values[at])
        } else {
            None
        }
    }

    /// Whether the table has `key`.
    pub fn contains_key(&self, key: &K) -> (r: bool)
        ensures
            r == self@.contains_key(key@),
    {
        proof {
            use_type_invariant(self);
        }
        let (_at, found) = seek(&self.columns.keys, key);
        found
    }

    /// Sets the value of a key; hands back the value it had.
    pub fn insert(&mut self, key: K, value: T) -> (r: Option<T>)
        ensures
            final(self)@ == old(self)@.insert(key@, value@),
            r is Some <==> old(self)@.contains_key(key@),
            r matches Some(v) ==> v@ == old(self)@[key@],
    {
        proof {
            use_type_invariant(&*self);
        }
        let (at, found) = seek(&self.columns.keys, &key);
        let ghost k = key@;
        let ghost v = value@;
        let ghost start = self.columns;
        let ghost before = key_views(start.keys@);
        let mut c: Columns<K, T> = Columns { keys: Vec::new(), values: Vec::new() };
        std::mem::swap(&mut c, &mut self.columns);
        if found {
            proof {
                lemma_lookup(start, at as int);
            }
            let old_value = replace_at(&mut c.values, at, value);
            proof {
                assert(c.keys@ == start.keys@);
                assert forall|x: K::V| table_map(c).contains_key(x) implies table_map(c)[x]
                    == table_map(start).insert(k, v)[x] by {
                    let j = before.index_of(x);
                    assert(before.contains(x));
                    assert(0 <= j < before.len() && before[j] == x);
                    lemma_lookup(c, j);
                    lemma_lookup(start, j);
                    assert(before[j] == c.keys@[j]@);
                    if x == k && j != at {
                        K::lemma_key_order();
                        let lt = |a: K::V, b: K::V| K::before(a, b);
                        assert(before[at as int] == k);
                        assert(!lt(k, k));
                        if j < at {
                            assert(K::before(before[j], before[at as int]));
                        } else {
                            assert(K::before(before[at as int], before[j]));
                        }
                    }
                }
                assert(table_map(c) =~= table_map(start).insert(k, v));
            }
            self.columns = c;
            return Some(old_value);
        }
        proof {
            lemma_insert_ascending::<K>(before, at as int, k);
        }
        c.keys.insert(at, key);
        c.values.insert(at, value);
        proof {
            assert(key_views(c.keys@) =~= before.insert(at as int, k));
            lemma_keys(c);
            lemma_keys(start);
            assert(table_map(c).dom() =~= table_map(start).insert(k, v).dom());
            assert forall|x: K::V| table_map(c).contains_key(x) implies table_map(c)[x] == table_map(
                start,
            ).insert(k, v)[x] by {
                let views = key_views(c.keys@);
                assert(views.contains(x));
                let j = views.index_of(x);
                assert(views[j] == x);
                lemma_lookup(c, j);
                if j < at {
                    lemma_lookup(start, j);
                    assert(before[j] == x);
                    assert(start.keys@[j]@ == x);
                } else if j > at {
                    lemma_lookup(start, j - 1);
                    assert(before[j - 1] == x);
                    assert(start.keys@[j - 1]@ == x);
                }
            }
            assert(table_map(c) =~= table_map(start).insert(k, v));
        }
        self.columns = c;
        None
    }

    /// Removes a key; hands back the value it had.
    pub fn remove(&mut self, key: &K) -> (r: Option<T>)
        ensures
            final(self)@ == old(self)@.remove(key@),
            r is Some <==> old(self)@.contains_key(key@),
            r matches Some(v) ==> v@ == old(self)@[key@],
    {
        proof {
            use_type_invariant(&*self);
        }
        let (at, found) = seek(&self.columns.keys, key);
        let ghost start = self.columns;
        let ghost before = key_views(start.keys@);
        if !found {
            assert(self@.remove(key@) =~= self@);
            return None;
        }
        proof {
            lemma_lookup(start, at as int);
            lemma_remove_ascending::<K>(before, at as int);
        }
        let mut c: Columns<K, T> = Columns { keys: Vec::new(), values: Vec::new() };
        std::mem::swap(&mut c, &mut self.columns);
        c.keys.remove(at);
        let value = c.values.remove(at);
        proof {
            assert(key_views(c.keys@) =~= before.remove(at as int));
            lemma_keys(c);
            lemma_keys(start);
            assert(table_map(c).dom() =~= table_map(start).remove(key@).dom());
            assert forall|x: K::V| table_map(c).contains_key(x) implies table_map(c)[x] == table_map(
                start,
            ).remove(key@)[x] by {
                let views = key_views(c.keys@);
                assert(views.contains(x));
                let j = views.index_of(x);
                assert(views[j] == x);
                lemma_lookup(c, j);
                if j < at {
                    lemma_lookup(start, j);
                    assert(before[j] == x);
                    assert(start.keys@[j]@ == x);
                } else {
                    lemma_lookup(start, j + 1);
                    assert(before[j + 1] == x);
                    assert(start.keys@[j + 1]@ == x);
                }
            }
            assert(table_map(c) =~= table_map(start).remove(key@));
        }
        self.columns = c;
        Some(value)
    }
}

/// Puts `value` in the place of the value at `at`.
pub(crate) fn replace_at<T>(v: &mut Vec<T>, at: usize, value: T) -> (r: T)
    requires
        at < old(v)@.len(),
    ensures
        final(v)@ == old(v)@.update(at as int, value),
        r == old(v)@[at as int],
{
    v.push(value);
    let r = v.swap_remove(at);
    assert(v@ =~= old(v)@.update(at as int, value));
    r
}

/// What two lists hold together is what either holds.
pub proof fn lemma_in_both<T>(a: Seq<T>, b: Seq<T>, x: T)
    ensures
        (a + b).contains(x) <==> a.contains(x) || b.contains(x),
{
    if a.contains(x) {
        let i = choose|i: int| 0 <= i < a.len() && a[i] == x;
        assert((a + b)[i] == x);
    }
    if b.contains(x) {
        let i = choose|i: int| 0 <= i < b.len() && b[i] == x;
        assert((a + b)[a.len() + i] == x);
    }
    if (a + b).contains(x) {
        let i = choose|i: int| 0 <= i < (a + b).len() && (a + b)[i] == x;
        if i < a.len() {
            assert(a[i] == x);
        } else {
            assert(b[i - a.len()] == x);
        }
    }
}

/// What a list holds once something is put at its end.
pub proof fn lemma_in_push<T>(a: Seq<T>, b: T, x: T)
    ensures
        a.push(b).contains(x) <==> a.contains(x) || b == x,
{
    lemma_in_both(a, seq![b], x);
    assert(a + seq![b] =~= a.push(b));
    assert(seq![b][0] == b);
}

} // verus!
