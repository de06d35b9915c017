use vstd::prelude::*;

verus! {

/// `k` is the first position at or after `i` where `s` holds `c`.
pub open spec fn is_first_from<T>(s: Seq<T>, i: int, c: T, k: int) -> bool {
    &&& 0 <= i <= k < s.len()
    &&& s[k] == c
    &&& forall|m: int| i <= m < k ==> s[m] != c
}

/// The first position at or after `i` where `s` holds `c`, if any.
pub open spec fn first_index_from<T>(s: Seq<T>, i: int, c: T) -> Option<int> {
    if exists|k: int| is_first_from(s, i, c, k) {
        Some(choose|k: int| is_first_from(s, i, c, k))
    } else {
        None
    }
}

/// The parts of `s` from position `i` on, cut at each `sep` (`str::split`
/// with a one-character pattern): n separators give n + 1 parts, some of them
/// possibly empty.
pub open spec fn split_from<T>(s: Seq<T>, i: int, sep: T) -> Seq<Seq<T>>
    decreases s.len() - i,
{
    if i < 0 || i > s.len() {
        Seq::empty()
    } else {
        match first_index_from(s, i, sep) {
            Some(k) => if i <= k < s.len() {
                seq![s.subrange(i, k)] + split_from(s, k + 1, sep)
            } else {
                Seq::empty()
            },
            None => seq![s.subrange(i, s.len() as int)],
        }
    }
}

/// The parts of `s` cut at each `sep`.
pub open spec fn split_all<T>(s: Seq<T>, sep: T) -> Seq<Seq<T>> {
    split_from(s, 0, sep)
}

/// What comes before and after the first `sep` in `s` (`str::split_once`).
pub open spec fn split_once<T>(s: Seq<T>, sep: T) -> Option<(Seq<T>, Seq<T>)> {
    match first_index_from(s, 0, sep) {
        Some(k) => Some((s.subrange(0, k), s.subrange(k + 1, s.len() as int))),
        None => None,
    }
}

/// `s` holds `pat` at position `i`.
pub open spec fn has_at<T>(s: Seq<T>, i: int, pat: Seq<T>) -> bool {
    0 <= i && i + pat.len() <= s.len() && s.subrange(i, i + pat.len()) == pat
}

/// `s` from position `i` on, with each occurrence of the non-empty pattern
/// `pat` replaced by `rep`, occurrences taken from the left without overlap
/// (`str::replace`).
pub open spec fn replace_from<T>(s: Seq<T>, i: int, pat: Seq<T>, rep: Seq<T>) -> Seq<T>
    decreases s.len() - i,
{
    if i < 0 || i >= s.len() {
        Seq::empty()
    } else if pat.len() > 0 && has_at(s, i, pat) {
        rep + replace_from(s, i + pat.len(), pat, rep)
    } else {
        seq![s[i]] + replace_from(s, i + 1, pat, rep)
    }
}

/// `s` with each occurrence of `pat` replaced by `rep`.
pub open spec fn replace_all<T>(s: Seq<T>, pat: Seq<T>, rep: Seq<T>) -> Seq<T> {
    replace_from(s, 0, pat, rep)
}

/// Replacing a pattern whose first item does not occur leaves the text as
/// it is.
pub proof fn lemma_replace_absent<T>(s: Seq<T>, i: int, pat: Seq<T>, rep: Seq<T>)
    requires
        0 <= i <= s.len(),
        pat.len() > 0,
        !s.contains(pat[0]),
    ensures
        replace_from(s, i, pat, rep) == s.subrange(i, s.len() as int),
    decreases s.len() - i,
{
    if i < s.len() {
        if has_at(s, i, pat) {
            assert(s.subrange(i, i + pat.len())[0] == s[i]);
            assert(s.contains(s[i]));
        }
        lemma_replace_absent(s, i + 1, pat, rep);
        assert(seq![s[i]] + s.subrange(i + 1, s.len() as int) =~= s.subrange(i, s.len() as int));
    } else {
        assert(s.subrange(i, s.len() as int) =~= Seq::<T>::empty());
    }
}

/// `pat` occurs somewhere in `s`.
pub open spec fn occurs<T>(s: Seq<T>, pat: Seq<T>) -> bool {
    exists|j: int| #[trigger] has_at(s, j, pat)
}

/// No item of `a` is an item of `b`.
pub open spec fn share_none<T>(a: Seq<T>, b: Seq<T>) -> bool {
    forall|x: int, y: int| 0 <= x < a.len() && 0 <= y < b.len() ==> a[x] != b[y]
}

/// Where a replacement's output holds no item of the replacement, it copies
/// the text.
proof fn lemma_kept_prefix<T>(s: Seq<T>, i: int, pat: Seq<T>, rep: Seq<T>, n: int)
    requires
        0 <= i <= s.len(),
        pat.len() > 0,
        rep.len() > 0,
        0 <= n <= replace_from(s, i, pat, rep).len(),
        forall|k: int| 0 <= k < n ==> !rep.contains(#[trigger] replace_from(s, i, pat, rep)[k]),
    ensures
        i + n <= s.len(),
        forall|k: int| 0 <= k < n ==> s[i + k] == #[trigger] replace_from(s, i, pat, rep)[k],
    decreases n,
{
    if n > 0 {
        let o = replace_from(s, i, pat, rep);
        assert(i < s.len());
        if has_at(s, i, pat) {
            assert(o[0] == rep[0]);
            assert(rep.contains(rep[0]));
        } else {
            let r = replace_from(s, i + 1, pat, rep);
            assert(o == seq![s[i]] + r);
            assert forall|k: int| 0 <= k < n - 1 implies !rep.contains(#[trigger] r[k]) by {
                assert(r[k] == o[k + 1]);
            }
            lemma_kept_prefix(s, i + 1, pat, rep, n - 1);
            assert forall|k: int| 0 <= k < n implies s[i + k] == #[trigger] o[k] by {
                if k > 0 {
                    assert(o[k] == r[k - 1]);
                }
            }
        }
    }
}

/// Replacing `pat` by a text that shares no item with `q` leaves no `q`
/// behind where the text held none, or where `q` is `pat` itself.
pub proof fn lemma_replace_leaves_none<T>(s: Seq<T>, i: int, pat: Seq<T>, rep: Seq<T>, q: Seq<T>)
    requires
        0 <= i <= s.len(),
        pat.len() > 0,
        rep.len() > 0,
        q.len() > 0,
        share_none(rep, q),
        q == pat || forall|j: int| i <= j ==> !#[trigger] has_at(s, j, q),
    ensures
        !occurs(replace_from(s, i, pat, rep), q),
    decreases s.len() - i,
{
    let o = replace_from(s, i, pat, rep);
    if i < s.len() {
        let m = has_at(s, i, pat);
        let prefix = if m { rep } else { seq![s[i]] };
        let next = if m { i + pat.len() } else { i + 1 };
        let r = replace_from(s, next, pat, rep);
        assert(o == prefix + r);
        lemma_replace_leaves_none(s, next, pat, rep, q);
        if occurs(o, q) {
            let j = choose|j: int| #[trigger] has_at(o, j, q);
            assert(o.subrange(j, j + q.len())[0] == q[0]);
            if j >= prefix.len() {
                assert(r.subrange(j - prefix.len(), j - prefix.len() + q.len()) =~= o.subrange(j, j + q.len()));
                assert(has_at(r, j - prefix.len(), q));
            } else if m {
                assert(o[j] == rep[j]);
                assert(o[j] == q[0]);
            } else {
                assert(j == 0);
                assert forall|k: int| 0 <= k < q.len() implies !rep.contains(#[trigger] o[k]) by {
                    assert(o[k] == o.subrange(0, q.len() as int)[k]);
                    assert(o[k] == q[k]);
                    if rep.contains(o[k]) {
                        let y = choose|y: int| 0 <= y < rep.len() && rep[y] == o[k];
                    }
                }
                lemma_kept_prefix(s, i, pat, rep, q.len() as int);
                assert(s.subrange(i, i + q.len()) =~= q) by {
                    assert forall|k: int| 0 <= k < q.len() implies s.subrange(i, i + q.len())[k] == q[k] by {
                        assert(s[i + k] == o[k]);
                        assert(o[k] == o.subrange(0, q.len() as int)[k]);
                    }
                }
                assert(has_at(s, i, q));
            }
        }
    } else {
        assert(o.len() == 0);
        if occurs(o, q) {
            let j = choose|j: int| #[trigger] has_at(o, j, q);
        }
    }
}

/// Replacing a pattern that does not occur leaves the text as it is.
pub proof fn lemma_replace_nothing<T>(s: Seq<T>, i: int, pat: Seq<T>, rep: Seq<T>)
    requires
        0 <= i <= s.len(),
        pat.len() > 0,
        !occurs(s, pat),
    ensures
        replace_from(s, i, pat, rep) == s.subrange(i, s.len() as int),
    decreases s.len() - i,
{
    if i < s.len() {
        assert(!has_at(s, i, pat));
        lemma_replace_nothing(s, i + 1, pat, rep);
        assert(seq![s[i]] + s.subrange(i + 1, s.len() as int) =~= s.subrange(i, s.len() as int));
    } else {
        assert(s.subrange(i, s.len() as int) =~= Seq::<T>::empty());
    }
}

pub proof fn lemma_first_unique<T>(s: Seq<T>, i: int, c: T, k: int)
    requires
        is_first_from(s, i, c, k),
    ensures
        first_index_from(s, i, c) == Some(k),
{
    let j = choose|j: int| is_first_from(s, i, c, j);
    assert(is_first_from(s, i, c, j));
    if j < k {
        assert(s[j] != c);
    } else if k < j {
        assert(s[k] != c);
    }
}

/// The first position at or after `from` where `s` holds `c`.
pub fn find_byte(s: &[u8], from: usize, c: u8) -> (r: Option<usize>)
    requires
        from <= s@.len(),
    ensures
        match r {
            Some(k) => is_first_from(s@, from as int, c, k as int) && first_index_from(
                s@,
                from as int,
                c,
            ) == Some(k as int),
            None => first_index_from(s@, from as int, c) is None,
        },
{
    let mut k: usize = from;
    while k < s.len()
        invariant
            from <= k <= s@.len(),
            forall|m: int| from <= m < k ==> s@[m] != c,
        decreases s@.len() - k,
    {
        if s[k] == c {
            proof {
                lemma_first_unique(s@, from as int, c, k as int);
            }
            return Some(k);
        }
        k = k + 1;
    }
    assert(!exists|j: int| is_first_from(s@, from as int, c, j));
    None
}

/// A copy of `s[from..to]`.
pub fn copy_range(s: &[u8], from: usize, to: usize) -> (r: Vec<u8>)
    requires
        from <= to <= s@.len(),
    ensures
        r@ == s@.subrange(from as int, to as int),
{
    let mut r: Vec<u8> = Vec::new();
    let mut i: usize = from;
    while i < to
        invariant
            from <= i <= to <= s@.len(),
            r@ == s@.subrange(from as int, i as int),
        decreases to - i,
    {
        r.push(s[i]);
        assert(r@ =~= s@.subrange(from as int, i + 1));
        i = i + 1;
    }
    r
}

/// What comes before and after the first `sep` in `s`.
pub fn split_once_bytes(s: &[u8], sep: u8) -> (r: Option<(Vec<u8>, Vec<u8>)>)
    ensures
        match r {
            Some((a, b)) => split_once(s@, sep) == Some((a@, b@)),
            None => split_once(s@, sep) is None,
        },
{
    match find_byte(s, 0, sep) {
        Some(k) => {
            assert(k < s.len());
            let a = copy_range(s, 0, k);
            let b = copy_range(s, k + 1, s.len());
            Some((a, b))
        },
        None => None,
    }
}

/// The views of a sequence of byte strings.
pub open spec fn byte_strings_view(v: Seq<Vec<u8>>) -> Seq<Seq<u8>> {
    v.map_values(|w: Vec<u8>| w@)
}

/// The parts of `s` cut at each `sep`.
pub fn split_bytes(s: &[u8], sep: u8) -> (r: Vec<Vec<u8>>)
    ensures
        byte_strings_view(r@) == split_all(s@, sep),
{
    let mut parts: Vec<Vec<u8>> = Vec::new();
    let mut i: usize = 0;
    loop
        invariant
            0 <= i <= s@.len(),
            split_all(s@, sep) == byte_strings_view(parts@) + split_from(s@, i as int, sep),
        decreases s@.len() - i,
    {
        let ghost before = byte_strings_view(parts@);
        match find_byte(s, i, sep) {
            Some(k) => {
                assert(k < s.len());
                let part = copy_range(s, i, k);
                let ghost pv = part@;
                parts.push(part);
                assert(byte_strings_view(parts@) =~= before.push(pv));
                assert(before + split_from(s@, i as int, sep) =~= before.push(pv) + split_from(
                    s@,
                    k + 1,
                    sep,
                ));
                i = k + 1;
            },
            None => {
                let part = copy_range(s, i, s.len());
                let ghost pv = part@;
                parts.push(part);
                assert(byte_strings_view(parts@) =~= before.push(pv));
                assert(before + split_from(s@, i as int, sep) =~= before.push(pv));
                return parts;
            },
        }
    }
}

/// Whether `s` holds `pat` at position `i`.
pub fn bytes_at(s: &[u8], i: usize, pat: &[u8]) -> (r: bool)
    requires
        i <= s@.len(),
    ensures
        r == has_at(s@, i as int, pat@),
{
    if pat.len() > s.len() - i {
        return false;
    }
    let mut k: usize = 0;
    while k < pat.len()
        invariant
            i + pat@.len() <= s@.len(),
            s@.len() == s.len(),
            0 <= k <= pat@.len(),
            forall|m: int| 0 <= m < k ==> s@[i + m] == pat@[m],
        decreases pat@.len() - k,
    {
        if s[i + k] != pat[k] {
            assert(s@.subrange(i as int, i + pat@.len())[k as int] != pat@[k as int]);
            return false;
        }
        k = k + 1;
    }
    assert(s@.subrange(i as int, i + pat@.len()) =~= pat@);
    true
}

/// `s` with each occurrence of the non-empty pattern `pat` replaced by `rep`.
pub fn replace_bytes(s: &[u8], pat: &[u8], rep: &[u8]) -> (r: Vec<u8>)
    requires
        pat@.len() > 0,
    ensures
        r@ == replace_all(s@, pat@, rep@),
{
    let mut out: Vec<u8> = Vec::new();
    let mut i: usize = 0;
    while i < s.len()
        invariant
            pat@.len() > 0,
            0 <= i <= s@.len(),
            replace_all(s@, pat@, rep@) == out@ + replace_from(s@, i as int, pat@, rep@),
        decreases s@.len() - i,
    {
        let ghost before = out@;
        if bytes_at(s, i, pat) {
            let mut k: usize = 0;
            while k < rep.len()
                invariant
                    0 <= k <= rep@.len(),
                    out@ == before + rep@.subrange(0, k as int),
                decreases rep@.len() - k,
            {
                out.push(rep[k]);
                assert(out@ =~= before + rep@.subrange(0, k + 1));
                k = k + 1;
            }
            assert(rep@.subrange(0, rep@.len() as int) =~= rep@);
            assert(before + (rep@ + replace_from(s@, i + pat@.len(), pat@, rep@)) =~= out@
                + replace_from(s@, i + pat@.len(), pat@, rep@));
            i = i + pat.len();
        } else {
            out.push(s[i]);
            assert(before + (seq![s@[i as int]] + replace_from(s@, i + 1, pat@, rep@)) =~= out@
                + replace_from(s@, i + 1, pat@, rep@));
            i = i + 1;
        }
    }
    assert(out@ + Seq::<u8>::empty() =~= out@);
    out
}

} // verus!
