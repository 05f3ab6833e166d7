//! The order of a directory listing: ascending by case-insensitive name, ties
//! broken by the exact name, each exact name once.

use vstd::prelude::*;
use crate::entry::DirEntry;

verus! {

/// What `str::to_lowercase` makes of a text.
pub uninterp spec fn lower_of(s: Seq<char>) -> Seq<char>;

/// Relies on `str::to_lowercase`: the result depends on the characters alone.
#[verifier::external_body]
fn lowercase(s: &str) -> (r: String)
    ensures
        r@ == lower_of(s@),
{
    s.to_lowercase()
}

/// Lexicographic order of texts by code point.
pub open spec fn chars_lt(a: Seq<char>, b: Seq<char>) -> bool
    decreases a.len(),
{
    if a.len() == 0 {
        b.len() > 0
    } else if b.len() == 0 {
        false
    } else if a[0] != b[0] {
        a[0] < b[0]
    } else {
        chars_lt(a.drop_first(), b.drop_first())
    }
}

/// The case-insensitive name of an entry.
pub open spec fn entry_key(e: DirEntry) -> Seq<char> {
    lower_of(e.name@)
}

/// `a` comes before `b` in a listing.
pub open spec fn entry_before(a: DirEntry, b: DirEntry) -> bool {
    ||| chars_lt(entry_key(a), entry_key(b))
    ||| entry_key(a) == entry_key(b) && chars_lt(a.name@, b.name@)
}

/// Strictly ascending in the order of listings.
pub open spec fn is_listing(s: Seq<DirEntry>) -> bool {
    forall|i: int, j: int| 0 <= i < j < s.len() ==> entry_before(#[trigger] s[i], #[trigger] s[j])
}

/// No entry before position `i` has the exact name of the one at `i`.
pub open spec fn first_of_name(raw: Seq<DirEntry>, i: int) -> bool {
    forall|j: int| 0 <= j < i ==> (#[trigger] raw[j]).name@ != raw[i].name@
}

pub proof fn lemma_chars_lt_irreflexive(a: Seq<char>)
    ensures
        !chars_lt(a, a),
    decreases a.len(),
{
    if a.len() > 0 {
        lemma_chars_lt_irreflexive(a.drop_first());
    }
}

pub proof fn lemma_chars_lt_transitive(a: Seq<char>, b: Seq<char>, c: Seq<char>)
    requires
        chars_lt(a, b),
        chars_lt(b, c),
    ensures
        chars_lt(a, c),
    decreases a.len(),
{
    if a.len() > 0 && b.len() > 0 && c.len() > 0 && a[0] == b[0] && b[0] == c[0] {
        lemma_chars_lt_transitive(a.drop_first(), b.drop_first(), c.drop_first());
    }
}

pub proof fn lemma_chars_lt_total(a: Seq<char>, b: Seq<char>)
    requires
        a != b,
    ensures
        chars_lt(a, b) || chars_lt(b, a),
    decreases a.len(),
{
    if a.len() > 0 && b.len() > 0 {
        if a[0] == b[0] {
            if a.drop_first() == b.drop_first() {
                assert(a =~= seq![a[0]] + a.drop_first());
                assert(b =~= seq![b[0]] + b.drop_first());
            }
            lemma_chars_lt_total(a.drop_first(), b.drop_first());
        }
    } else if a.len() == 0 && b.len() == 0 {
        assert(a =~= b);
    }
}

pub proof fn lemma_chars_lt_asymmetric(a: Seq<char>, b: Seq<char>)
    requires
        chars_lt(a, b),
    ensures
        !chars_lt(b, a),
{
    if chars_lt(b, a) {
        lemma_chars_lt_transitive(a, b, a);
        lemma_chars_lt_irreflexive(a);
    }
}

pub proof fn lemma_before_transitive(a: DirEntry, b: DirEntry, c: DirEntry)
    requires
        entry_before(a, b),
        entry_before(b, c),
    ensures
        entry_before(a, c),
{
    if chars_lt(entry_key(a), entry_key(b)) && chars_lt(entry_key(b), entry_key(c)) {
        lemma_chars_lt_transitive(entry_key(a), entry_key(b), entry_key(c));
    } else if chars_lt(a.name@, b.name@) && chars_lt(b.name@, c.name@) {
        lemma_chars_lt_transitive(a.name@, b.name@, c.name@);
    }
}

pub proof fn lemma_before_total(a: DirEntry, b: DirEntry)
    requires
        a.name@ != b.name@,
    ensures
        entry_before(a, b) || entry_before(b, a),
{
    if entry_key(a) != entry_key(b) {
        lemma_chars_lt_total(entry_key(a), entry_key(b));
    } else {
        lemma_chars_lt_total(a.name@, b.name@);
    }
}

pub proof fn lemma_before_distinct(a: DirEntry, b: DirEntry)
    requires
        entry_before(a, b),
    ensures
        a.name@ != b.name@,
        !entry_before(b, a),
{
    if a.name@ == b.name@ {
        lemma_chars_lt_irreflexive(entry_key(a));
        lemma_chars_lt_irreflexive(a.name@);
    }
    if chars_lt(entry_key(a), entry_key(b)) {
        lemma_chars_lt_asymmetric(entry_key(a), entry_key(b));
    } else {
        lemma_chars_lt_asymmetric(a.name@, b.name@);
        if chars_lt(entry_key(b), entry_key(a)) {
            lemma_chars_lt_irreflexive(entry_key(a));
        }
    }
}

/// The characters of a text, one by one.
pub(crate) fn chars_of(s: &str) -> (r: Vec<char>)
    ensures
        r@ == s@,
{
    let mut r: Vec<char> = Vec::new();
    for c in it: s.chars()
        invariant
            r@ == it.seq().subrange(0, it.index() as int),
    {
        r.push(c);
    }
    r
}

/// Whether `a` comes before `b` by code point.
fn chars_less(a: &Vec<char>, b: &Vec<char>) -> (r: bool)
    ensures
        r == chars_lt(a@, b@),
{
    let mut i: usize = 0;
    assert(a@.subrange(0, a@.len() as int) =~= a@);
    assert(b@.subrange(0, b@.len() as int) =~= b@);
    while i < a.len() && i < b.len()
        invariant
            i <= a@.len(),
            i <= b@.len(),
            chars_lt(a@, b@) == chars_lt(a@.subrange(i as int, a@.len() as int), b@.subrange(i as int, b@.len() as int)),
        decreases a@.len() - i,
    {
        if a[i] != b[i] {
            return a[i] < b[i];
        }
        assert(a@.subrange(i as int, a@.len() as int).drop_first() =~= a@.subrange(i + 1, a@.len() as int));
        assert(b@.subrange(i as int, b@.len() as int).drop_first() =~= b@.subrange(i + 1, b@.len() as int));
        i = i + 1;
    }
    i < b.len()
}


/// Whether the entry with key `ak` and name `an` comes before the one with key
/// `bk` and name `bn`.
fn before_exec(ak: &Vec<char>, an: &Vec<char>, bk: &Vec<char>, bn: &Vec<char>) -> (r: bool)
    ensures
        r == (chars_lt(ak@, bk@) || (ak@ == bk@ && chars_lt(an@, bn@))),
{
    if chars_less(ak, bk) {
        return true;
    }
    if chars_less(bk, ak) {
        return false;
    }
    proof {
        if ak@ != bk@ {
            lemma_chars_lt_total(ak@, bk@);
        }
    }
    chars_less(an, bn)
}

/// Some entry of `s` has the exact name `n`.
pub open spec fn has_name(s: Seq<DirEntry>, n: Seq<char>) -> bool {
    exists|j: int| 0 <= j < s.len() && (#[trigger] s[j]).name@ == n
}

/// The keys and the names held beside a listing, in its order.
pub open spec fn keyed(out: Seq<DirEntry>, keys: Seq<Vec<char>>, names: Seq<Vec<char>>) -> bool {
    &&& out.len() == keys.len()
    &&& out.len() == names.len()
    &&& forall|j: int| 0 <= j < out.len() ==> (#[trigger] keys[j])@ == entry_key(out[j])
    &&& forall|j: int| 0 <= j < out.len() ==> (#[trigger] names[j])@ == out[j].name@
}

proof fn lemma_insert_keeps_listing(s: Seq<DirEntry>, p: int, e: DirEntry)
    requires
        is_listing(s),
        0 <= p <= s.len(),
        forall|j: int| 0 <= j < p ==> entry_before(#[trigger] s[j], e),
        p < s.len() ==> entry_before(e, s[p]),
    ensures
        is_listing(s.insert(p, e)),
{
    let t = s.insert(p, e);
    assert forall|a: int, b: int| 0 <= a < b < t.len() implies entry_before(
        #[trigger] t[a],
        #[trigger] t[b],
    ) by {
        if b < p {
            assert(t[a] == s[a] && t[b] == s[b]);
        } else if b == p {
            assert(t[a] == s[a]);
        } else if a < p {
            assert(t[a] == s[a] && t[b] == s[b - 1]);
            if b - 1 > p {
                lemma_before_transitive(e, s[p], s[b - 1]);
            }
            lemma_before_transitive(s[a], e, s[b - 1]);
        } else if a == p {
            assert(t[b] == s[b - 1]);
            if b - 1 > p {
                lemma_before_transitive(e, s[p], s[b - 1]);
            }
        } else {
            assert(t[a] == s[a - 1] && t[b] == s[b - 1]);
        }
    }
}

/// Puts `e` into the listing at its place, unless an entry of that exact
/// name is there already; says whether it did.
fn insert_entry(
    out: &mut Vec<DirEntry>,
    keys: &mut Vec<Vec<char>>,
    names: &mut Vec<Vec<char>>,
    e: DirEntry,
) -> (r: bool)
    requires
        is_listing(old(out)@),
        keyed(old(out)@, old(keys)@, old(names)@),
    ensures
        is_listing(final(out)@),
        keyed(final(out)@, final(keys)@, final(names)@),
        r == !has_name(old(out)@, e.name@),
        final(out)@.len() == old(out)@.len() + if r { 1int } else { 0int },
        forall|x: DirEntry| #[trigger] final(out)@.contains(x) <==> (old(out)@.contains(x) || (r && x == e)),
        forall|n: Seq<char>| #[trigger] has_name(final(out)@, n) <==> (has_name(old(out)@, n) || n == e.name@),
{
    let e_name = chars_of(e.name.as_str());
    let lowered = lowercase(e.name.as_str());
    let e_key = chars_of(lowered.as_str());
    let mut p: usize = 0;
    let mut dup = false;
    let mut stop = false;
    while p < out.len() && !stop
        invariant
            p <= out@.len(),
            out@ == old(out)@,
            keyed(out@, keys@, names@),
            e_name@ == e.name@,
            e_key@ == entry_key(e),
            forall|j: int| 0 <= j < p ==> entry_before(#[trigger] out@[j], e),
            dup ==> stop && p < out@.len() && out@[p as int].name@ == e.name@,
            stop && !dup ==> p < out@.len() && entry_before(e, out@[p as int]),
        decreases out@.len() - p + (if stop { 0int } else { 1int }),
    {
        if out[p].name == e.name {
            dup = true;
            stop = true;
        } else if before_exec(&e_key, &e_name, &keys[p], &names[p]) {
            stop = true;
        } else {
            proof {
                lemma_before_total(out@[p as int], e);
            }
            p = p + 1;
        }
    }
    if dup {
        assert(has_name(out@, e.name@));
        return false;
    }
    proof {
        assert forall|j: int| 0 <= j < out@.len() implies (#[trigger] out@[j]).name@ != e.name@ by {
            if j < p {
                lemma_before_distinct(out@[j], e);
            } else {
                if j > p {
                    lemma_before_transitive(e, out@[p as int], out@[j]);
                }
                lemma_before_distinct(e, out@[j]);
            }
        }
        lemma_insert_keeps_listing(out@, p as int, e);
    }
    let ghost old_out = out@;
    out.insert(p, e);
    keys.insert(p, e_key);
    names.insert(p, e_name);
    proof {
        assert forall|x: DirEntry| #[trigger] out@.contains(x) implies (old_out.contains(x) || x == e) by {
            let j = choose|j: int| 0 <= j < out@.len() && out@[j] == x;
            if j < p {
                assert(old_out[j] == x);
            } else if j > p {
                assert(old_out[j - 1] == x);
            }
        }
        assert forall|x: DirEntry| old_out.contains(x) || x == e implies #[trigger] out@.contains(x) by {
            if x == e {
                assert(out@[p as int] == x);
            } else {
                let j = choose|j: int| 0 <= j < old_out.len() && old_out[j] == x;
                if j < p {
                    assert(out@[j] == x);
                } else {
                    assert(out@[j + 1] == x);
                }
            }
        }
        assert forall|n: Seq<char>| #[trigger] has_name(out@, n) implies (has_name(old_out, n) || n == e.name@) by {
            let j = choose|j: int| 0 <= j < out@.len() && (#[trigger] out@[j]).name@ == n;
            if j < p {
                assert(old_out[j].name@ == n);
            } else if j > p {
                assert(old_out[j - 1].name@ == n);
            }
        }
        assert forall|n: Seq<char>| has_name(old_out, n) || n == e.name@ implies #[trigger] has_name(out@, n) by {
            if n == e.name@ {
                assert(out@[p as int].name@ == n);
            } else {
                let j = choose|j: int| 0 <= j < old_out.len() && (#[trigger] old_out[j]).name@ == n;
                if j < p {
                    assert(out@[j].name@ == n);
                } else {
                    assert(out@[j + 1].name@ == n);
                }
            }
        }
        assert forall|j: int| 0 <= j < out@.len() implies (#[trigger] keys@[j])@ == entry_key(out@[j]) && names@[j]@ == out@[j].name@ by {
            if j < p {
            } else if j > p {
                assert(out@[j] == old_out[j - 1]);
            }
        }
    }
    true
}

/// Orders the records of one directory level: ascending by case-insensitive
/// name, ties broken by the exact name. Of records that share an exact name
/// only the first is kept.
pub fn normalize_listing(raw: Vec<DirEntry>) -> (r: Vec<DirEntry>)
    ensures
        is_listing(r@),
        forall|x: DirEntry|
            #[trigger] r@.contains(x) <==> exists|i: int|
                #![trigger raw@[i]]
                0 <= i < raw@.len() && x == raw@[i] && first_of_name(raw@, i),
        r@.len() <= raw@.len(),
{
    let ghost orig = raw@;
    let mut raw = raw;
    let mut out: Vec<DirEntry> = Vec::new();
    let mut keys: Vec<Vec<char>> = Vec::new();
    let mut names: Vec<Vec<char>> = Vec::new();
    let ghost mut k: int = 0;
    assert(raw@ =~= orig.subrange(0, orig.len() as int));
    while raw.len() > 0
        invariant
            0 <= k <= orig.len(),
            raw@ =~= orig.subrange(k, orig.len() as int),
            out@.len() <= k,
            keyed(out@, keys@, names@),
            is_listing(out@),
            forall|x: DirEntry|
                #[trigger] out@.contains(x) <==> exists|i: int|
                    #![trigger orig[i]]
                    0 <= i < k && x == orig[i] && first_of_name(orig, i),
            forall|n: Seq<char>|
                #[trigger] has_name(out@, n) <==> exists|i: int|
                    #![trigger orig[i]]
                    0 <= i < k && n == orig[i].name@,
        decreases raw@.len(),
    {
        let e = raw.remove(0);
        assert(e == orig[k]);
        let ghost old_out = out@;
        let inserted = insert_entry(&mut out, &mut keys, &mut names, e);
        proof {
            assert(inserted == first_of_name(orig, k)) by {
                if inserted {
                    assert forall|i: int| 0 <= i < k implies (#[trigger] orig[i]).name@ != orig[k].name@ by {
                        if orig[i].name@ == orig[k].name@ {
                            assert(has_name(old_out, orig[k].name@));
                        }
                    }
                } else {
                    let i = choose|i: int| 0 <= i < k && e.name@ == (#[trigger] orig[i]).name@;
                }
            }
            assert forall|x: DirEntry| #[trigger] out@.contains(x) <==> exists|i: int|
                #![trigger orig[i]]
                0 <= i < k + 1 && x == orig[i] && first_of_name(orig, i) by {
                if exists|i: int| #![trigger orig[i]] 0 <= i < k + 1 && x == orig[i] && first_of_name(orig, i) {
                    let i = choose|i: int| #![trigger orig[i]] 0 <= i < k + 1 && x == orig[i] && first_of_name(orig, i);
                    if i < k {
                        assert(old_out.contains(x));
                    }
                }
            }
            assert forall|n: Seq<char>| #[trigger] has_name(out@, n) <==> exists|i: int|
                #![trigger orig[i]]
                0 <= i < k + 1 && n == orig[i].name@ by {
                if exists|i: int| #![trigger orig[i]] 0 <= i < k + 1 && n == orig[i].name@ {
                    let i = choose|i: int| #![trigger orig[i]] 0 <= i < k + 1 && n == orig[i].name@;
                    if i < k {
                        assert(has_name(old_out, n));
                    }
                }
            }
            k = k + 1;
        }
    }
    out
}

} // verus!
