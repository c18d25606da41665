//! Text as sequences of characters: searching, splitting, trimming, case, numbers.
//!
//! Every function is stated over the `Seq<char>` that a string denotes, so the rest
//! of the library can speak of text without speaking of its encoding.

use vstd::prelude::*;

verus! {

// ---------------------------------------------------------------------------
// Strings from and to characters
// ---------------------------------------------------------------------------

/// `String::push` appends one character to the end of the string.
pub assume_specification[ String::push ](s: &mut String, c: char)
    ensures
        final(s)@ == old(s)@.push(c),
;

/// Whether two runs of bytes are equal.
fn same_bytes(a: &[u8], b: &[u8]) -> (same: bool)
    ensures
        same == (a@ == b@),
{
    if a.len() != b.len() {
        return false;
    }
    let mut i: usize = 0;
    while i < a.len()
        invariant
            i <= a@.len(),
            a@.len() == b@.len(),
            forall|j: int| 0 <= j < i ==> a@[j] == b@[j],
        decreases a@.len() - i,
    {
        if a[i] != b[i] {
            return false;
        }
        i += 1;
    }
    assert(a@ =~= b@);
    true
}

/// Whether two strings hold the same characters.
pub fn str_eq(a: &str, b: &str) -> (same: bool)
    ensures
        same == (a@ == b@),
{
    proof {
        vstd::utf8::encode_utf8_decode_utf8(a@);
        vstd::utf8::encode_utf8_decode_utf8(b@);
    }
    same_bytes(a.as_bytes(), b.as_bytes())
}

/// The characters of a string.
pub fn chars_of(s: &str) -> (r: Vec<char>)
    ensures
        r@ == s@,
{
    let mut r: Vec<char> = Vec::new();
    for c in it: s.chars()
        invariant
            r@ == it.seq().take(it.index() as int),
            it.seq() == s@,
    {
        r.push(c);
    }
    assert(s@.take(s@.len() as int) == s@);
    r
}

/// The string made of the given characters.
pub fn string_of(s: &[char]) -> (r: String)
    ensures
        r@ == s@,
{
    let mut r: String = String::new();
    let mut i: usize = 0;
    while i < s.len()
        invariant
            i <= s@.len(),
            r@ == s@.take(i as int),
        decreases s@.len() - i,
    {
        r.push(s[i]);
        i += 1;
        assert(s@.take(i as int) == s@.take(i - 1).push(s@[i - 1]));
    }
    assert(s@.take(s@.len() as int) == s@);
    r
}

/// A copy of a run of characters.
pub fn copy_of(s: &[char], from: usize, to: usize) -> (r: Vec<char>)
    requires
        from <= to <= s@.len(),
    ensures
        r@ == s@.subrange(from as int, to as int),
{
    let mut r: Vec<char> = Vec::new();
    let mut i: usize = from;
    while i < to
        invariant
            from <= i <= to <= s@.len(),
            r@ == s@.subrange(from as int, i as int),
        decreases to - i,
    {
        r.push(s[i]);
        i += 1;
        assert(s@.subrange(from as int, i as int) == s@.subrange(from as int, i - 1).push(s@[i - 1]));
    }
    r
}

/// What a vector of character runs denotes.
pub open spec fn rows(v: Seq<Vec<char>>) -> Seq<Seq<char>> {
    Seq::new(v.len(), |i: int| v[i]@)
}

/// What a sequence of string slices denotes.
pub open spec fn texts(v: Seq<&str>) -> Seq<Seq<char>> {
    Seq::new(v.len(), |i: int| v[i]@)
}

/// What a sequence of strings denotes.
pub open spec fn strings(v: Seq<String>) -> Seq<Seq<char>> {
    Seq::new(v.len(), |i: int| v[i]@)
}

/// Whether two runs of characters are equal.
pub fn same_chars(a: &[char], b: &[char]) -> (same: bool)
    ensures
        same == (a@ == b@),
{
    if a.len() != b.len() {
        return false;
    }
    let mut i: usize = 0;
    while i < a.len()
        invariant
            i <= a@.len(),
            a@.len() == b@.len(),
            forall|j: int| 0 <= j < i ==> a@[j] == b@[j],
        decreases a@.len() - i,
    {
        if a[i] != b[i] {
            return false;
        }
        i += 1;
    }
    assert(a@ =~= b@);
    true
}

/// Whether a run of characters is the given string.
pub fn chars_are(a: &[char], b: &str) -> (same: bool)
    ensures
        same == (a@ == b@),
{
    let wanted = chars_of(b);
    same_chars(a, wanted.as_slice())
}

// ---------------------------------------------------------------------------
// Searching and splitting
// ---------------------------------------------------------------------------

/// Whether `pat` stands in `s` at position `i`.
pub open spec fn occurs_at(s: Seq<char>, pat: Seq<char>, i: int) -> bool {
    &&& 0 <= i
    &&& i + pat.len() <= s.len()
    &&& s.subrange(i, i + pat.len()) == pat
}

/// The first position, from `i` on, at which `pat` stands in `s`.
pub open spec fn find_from(s: Seq<char>, pat: Seq<char>, i: int) -> Option<int>
    decreases s.len() + 1 - i,
{
    if i < 0 || i + pat.len() > s.len() {
        None
    } else if occurs_at(s, pat, i) {
        Some(i)
    } else {
        find_from(s, pat, i + 1)
    }
}

/// The first position at which `pat` stands in `s`.
pub open spec fn find(s: Seq<char>, pat: Seq<char>) -> Option<int> {
    find_from(s, pat, 0)
}

/// `find_from` gives the first occurrence, or none when there is none.
pub proof fn lemma_find_from(s: Seq<char>, pat: Seq<char>, i: int)
    requires
        0 <= i,
    ensures
        match find_from(s, pat, i) {
            Some(k) => i <= k && occurs_at(s, pat, k) && forall|j: int|
                i <= j < k ==> !occurs_at(s, pat, j),
            None => forall|j: int| i <= j ==> !occurs_at(s, pat, j),
        },
    decreases s.len() + 1 - i,
{
    if i + pat.len() > s.len() {
    } else if occurs_at(s, pat, i) {
    } else {
        lemma_find_from(s, pat, i + 1);
    }
}

/// A single character stands where it is the character.
pub proof fn lemma_occurs_char(s: Seq<char>, c: char, i: int)
    ensures
        occurs_at(s, seq![c], i) <==> 0 <= i < s.len() && s[i] == c,
{
    if 0 <= i < s.len() {
        assert(s.subrange(i, i + 1) == seq![s[i]]);
        assert(seq![s[i]][0] == s[i]);
        assert(seq![c][0] == c);
    }
}

/// The first position, from `from` on, at which `pat` stands in `s`.
pub fn find_at(s: &[char], pat: &[char], from: usize) -> (r: Option<usize>)
    ensures
        match r {
            Some(i) => find_from(s@, pat@, from as int) == Some(i as int) && from <= i && i + pat@.len()
                <= s@.len(),
            None => find_from(s@, pat@, from as int) is None,
        },
{
    let n: usize = s.len();
    let m: usize = pat.len();
    let mut i: usize = from;
    while i <= n && m <= n - i
        invariant
            from <= i,
            n == s@.len(),
            m == pat@.len(),
            find_from(s@, pat@, from as int) == find_from(s@, pat@, i as int),
        decreases n + 1 - i,
    {
        let mut j: usize = 0;
        let mut equal: bool = true;
        while j < m && equal
            invariant
                j <= m,
                m == pat@.len(),
                n == s@.len(),
                i + m <= n,
                equal ==> forall|k: int| 0 <= k < j ==> s@[i + k] == pat@[k],
                !equal ==> exists|k: int| 0 <= k < m && s@[i + k] != pat@[k],
            decreases m - j, if equal { 1int } else { 0int },
        {
            if s[i + j] != pat[j] {
                equal = false;
            } else {
                j += 1;
            }
        }
        if equal {
            assert(s@.subrange(i as int, i + m) =~= pat@);
            return Some(i);
        }
        proof {
            let k = choose|k: int| 0 <= k < m && s@[i + k] != pat@[k];
            assert(s@.subrange(i as int, i + m)[k] != pat@[k]);
        }
        if i == n {
            assert(m == 0);
            assert(false);
        }
        i += 1;
    }
    None
}

/// The pieces of `s` between the occurrences of `pat`, from position `start` on.
/// Occurrences are taken from the left and do not overlap.
pub open spec fn split_from(s: Seq<char>, pat: Seq<char>, start: int) -> Seq<Seq<char>>
    decreases s.len() - start,
{
    match find_from(s, pat, start) {
        Some(i) => if start <= i && pat.len() > 0 && i + pat.len() <= s.len() {
            seq![s.subrange(start, i)] + split_from(s, pat, i + pat.len())
        } else {
            seq![s.subrange(start, s.len() as int)]
        },
        None => seq![s.subrange(start, s.len() as int)],
    }
}

/// The pieces of `s` between the occurrences of `pat`.
pub open spec fn split(s: Seq<char>, pat: Seq<char>) -> Seq<Seq<char>> {
    split_from(s, pat, 0)
}

/// Splits a run of characters at every occurrence of `pat`.
pub fn split_chars(s: &[char], pat: &[char]) -> (r: Vec<Vec<char>>)
    requires
        pat@.len() > 0,
    ensures
        rows(r@) == split(s@, pat@),
        r@.len() > 0,
{
    let n: usize = s.len();
    let mut r: Vec<Vec<char>> = Vec::new();
    let mut start: usize = 0;
    assert(rows(r@) + split_from(s@, pat@, 0) =~= split_from(s@, pat@, 0));
    loop
        invariant
            start <= n,
            n == s@.len(),
            pat@.len() > 0,
            rows(r@) + split_from(s@, pat@, start as int) == split(s@, pat@),
        decreases s@.len() - start,
    {
        let ghost before = rows(r@);
        match find_at(s, pat, start) {
            Some(i) => {
                let piece = copy_of(s, start, i);
                r.push(piece);
                assert(rows(r@) =~= before + seq![s@.subrange(start as int, i as int)]);
                let ghost old_start = start;
                start = i + pat.len();
                assert(rows(r@) + split_from(s@, pat@, start as int) =~= before + split_from(
                    s@,
                    pat@,
                    old_start as int,
                ));
            },
            None => {
                let piece = copy_of(s, start, n);
                r.push(piece);
                assert(rows(r@) =~= before + split_from(s@, pat@, start as int));
                return r;
            },
        }
    }
}

/// Splits a string at every occurrence of one character, without copying it.
pub fn split_str<'a>(s: &'a str, sep: char) -> (r: Vec<&'a str>)
    ensures
        texts(r@) == split(s@, seq![sep]),
        r@.len() > 0,
{
    let chars = chars_of(s);
    let n: usize = chars.len();
    let pat: [char; 1] = [sep];
    assert(pat@ =~= seq![sep]);
    let mut r: Vec<&'a str> = Vec::new();
    let mut start: usize = 0;
    assert(texts(r@) + split_from(s@, pat@, 0) =~= split_from(s@, pat@, 0));
    loop
        invariant
            start <= n,
            n == s@.len(),
            chars@ == s@,
            pat@ == seq![sep],
            texts(r@) + split_from(s@, pat@, start as int) == split(s@, pat@),
        decreases s@.len() - start,
    {
        let ghost before = texts(r@);
        match find_at(chars.as_slice(), pat.as_slice(), start) {
            Some(i) => {
                r.push(s.substring_char(start, i));
                assert(texts(r@) =~= before + seq![s@.subrange(start as int, i as int)]);
                let ghost old_start = start;
                start = i + 1;
                assert(texts(r@) + split_from(s@, pat@, start as int) =~= before + split_from(
                    s@,
                    pat@,
                    old_start as int,
                ));
            },
            None => {
                r.push(s.substring_char(start, n));
                assert(texts(r@) =~= before + split_from(s@, pat@, start as int));
                return r;
            },
        }
    }
}

/// The two sides of the first occurrence of `pat`, or nothing when there is none.
pub open spec fn split_once(s: Seq<char>, pat: Seq<char>) -> Option<(Seq<char>, Seq<char>)> {
    match find(s, pat) {
        Some(i) => Some((s.take(i), s.skip(i + pat.len()))),
        None => None,
    }
}

/// Splits a run of characters at the first occurrence of one character.
pub fn split_once_chars(s: &[char], sep: char) -> (r: Option<(Vec<char>, Vec<char>)>)
    ensures
        match r {
            Some((a, b)) => split_once(s@, seq![sep]) == Some((a@, b@)),
            None => split_once(s@, seq![sep]) is None,
        },
{
    let n: usize = s.len();
    let pat: [char; 1] = [sep];
    assert(pat@ =~= seq![sep]);
    match find_at(s, pat.as_slice(), 0) {
        Some(i) => {
            let a = copy_of(s, 0, i);
            let b = copy_of(s, i + 1, n);
            assert(a@ =~= s@.take(i as int));
            assert(b@ =~= s@.skip(i + 1));
            Some((a, b))
        },
        None => None,
    }
}

/// Whether `pat` stands anywhere in `s`.
pub open spec fn within(s: Seq<char>, pat: Seq<char>) -> bool {
    find(s, pat) is Some
}

/// A part of a text that does not hold `pat` does not hold it either.
pub proof fn lemma_part_free(s: Seq<char>, pat: Seq<char>, a: int, b: int)
    requires
        0 <= a <= b <= s.len(),
        !within(s, pat),
    ensures
        !within(s.subrange(a, b), pat),
{
    let part = s.subrange(a, b);
    lemma_find_from(s, pat, 0);
    lemma_find_from(part, pat, 0);
    if within(part, pat) {
        let k = find(part, pat)->0;
        assert(part.subrange(k, k + pat.len()) =~= s.subrange(a + k, a + k + pat.len()));
        assert(occurs_at(s, pat, a + k));
    }
}

/// No piece of a split text holds what the text was split at.
pub proof fn lemma_split_free(s: Seq<char>, pat: Seq<char>, start: int)
    requires
        0 <= start <= s.len(),
        pat.len() > 0,
    ensures
        split_from(s, pat, start).len() > 0,
        forall|i: int|
            0 <= i < split_from(s, pat, start).len() ==> !within(
                #[trigger] split_from(s, pat, start)[i],
                pat,
            ),
    decreases s.len() - start,
{
    lemma_find_from(s, pat, start);
    let end = match find_from(s, pat, start) {
        Some(i) => i,
        None => s.len() as int,
    };
    let first = s.subrange(start, end);
    lemma_find_from(first, pat, 0);
    if within(first, pat) {
        let k = find(first, pat)->0;
        assert(first.subrange(k, k + pat.len()) =~= s.subrange(start + k, start + k + pat.len()));
        assert(occurs_at(s, pat, start + k));
    }
    if find_from(s, pat, start) is Some {
        lemma_split_free(s, pat, end + pat.len());
        let rest = split_from(s, pat, end + pat.len());
        let all = split_from(s, pat, start);
        assert forall|i: int| 0 <= i < all.len() implies !within(#[trigger] all[i], pat) by {
            if i > 0 {
                assert(all[i] == rest[i - 1]);
            }
        }
    }
}

/// The parts put together, with `sep` between each two.
pub open spec fn join(parts: Seq<Seq<char>>, sep: Seq<char>) -> Seq<char>
    decreases parts.len(),
{
    if parts.len() == 0 {
        Seq::empty()
    } else if parts.len() == 1 {
        parts[0]
    } else {
        parts[0] + sep + join(parts.skip(1), sep)
    }
}

/// Puts parts together, with `sep` between each two.
pub fn join_strs(parts: &[&str], sep: &str) -> (r: String)
    ensures
        r@ == join(texts(parts@), sep@),
{
    let ghost all = texts(parts@);
    let n: usize = parts.len();
    let mut r: String = String::new();
    let mut i: usize = 0;
    assert(all.skip(0) =~= all);
    assert(r@ + join(all.skip(0), sep@) =~= join(all, sep@));
    while i < n
        invariant
            i <= n,
            n == parts@.len(),
            all == texts(parts@),
            i < n ==> r@ + join(all.skip(i as int), sep@) == join(all, sep@),
            i == n ==> r@ == join(all, sep@),
        decreases n - i,
    {
        let ghost before = r@;
        let ghost rest = all.skip(i as int);
        assert(rest[0] == parts@[i as int]@);
        assert(rest.skip(1) =~= all.skip(i + 1));
        r.append(parts[i]);
        if i + 1 < n {
            r.append(sep);
            assert(r@ + join(all.skip(i + 1), sep@) =~= before + join(rest, sep@));
        }
        i += 1;
    }
    r
}

proof fn lemma_find_shift(s: Seq<char>, pat: Seq<char>, k: int, i: int)
    requires
        0 <= k <= s.len(),
        0 <= i,
    ensures
        find_from(s, pat, k + i) == (match find_from(s.skip(k), pat, i) {
            Some(j) => Some(k + j),
            None => None,
        }),
    decreases s.len() + 1 - k - i,
{
    let t = s.skip(k);
    if k + i + pat.len() <= s.len() {
        assert(t.subrange(i, i + pat.len()) =~= s.subrange(k + i, k + i + pat.len()));
        if !occurs_at(t, pat, i) {
            lemma_find_shift(s, pat, k, i + 1);
        }
    }
}

/// Splitting from a position on is splitting what stands from there on.
proof fn lemma_split_shift(s: Seq<char>, pat: Seq<char>, k: int, i: int)
    requires
        0 <= k <= s.len(),
        0 <= i <= s.len() - k,
        pat.len() > 0,
    ensures
        split_from(s, pat, k + i) == split_from(s.skip(k), pat, i),
    decreases s.len() - k - i,
{
    let t = s.skip(k);
    lemma_find_shift(s, pat, k, i);
    lemma_find_from(t, pat, i);
    match find_from(t, pat, i) {
        Some(j) => {
            lemma_split_shift(s, pat, k, j + pat.len());
            assert(t.subrange(i, j) =~= s.subrange(k + i, k + j));
        },
        None => {
            assert(t.subrange(i, t.len() as int) =~= s.subrange(k + i, s.len() as int));
        },
    }
}

/// A text that does not hold the separator is one piece.
pub proof fn lemma_split_whole(s: Seq<char>, pat: Seq<char>)
    requires
        !within(s, pat),
    ensures
        split(s, pat) == seq![s],
{
    assert(s.subrange(0, s.len() as int) =~= s);
}

proof fn lemma_find_char(s: Seq<char>, c: char, k: int, i: int)
    requires
        0 <= i <= k < s.len(),
        s[k] == c,
        forall|j: int| i <= j < k ==> #[trigger] s[j] != c,
    ensures
        find_from(s, seq![c], i) == Some(k),
    decreases k - i,
{
    lemma_occurs_char(s, c, i);
    if i < k {
        lemma_find_char(s, c, k, i + 1);
    }
}

/// What comes before the first separator is the first piece.
pub proof fn lemma_split_first(a: Seq<char>, c: char, t: Seq<char>)
    requires
        !a.contains(c),
    ensures
        split(a + seq![c] + t, seq![c]) == seq![a] + split(t, seq![c]),
{
    let s = a + seq![c] + t;
    let k = a.len() as int;
    assert forall|j: int| 0 <= j < k implies #[trigger] s[j] != c by {
        assert(s[j] == a[j]);
    }
    lemma_find_char(s, c, k, 0);
    lemma_split_shift(s, seq![c], k + 1, 0);
    assert(s.subrange(0, k) =~= a);
    assert(s.skip(k + 1) =~= t);
}

/// A text without a character does not hold that character as a part.
pub proof fn lemma_char_free(s: Seq<char>, c: char)
    ensures
        within(s, seq![c]) <==> s.contains(c),
{
    lemma_find_from(s, seq![c], 0);
    if within(s, seq![c]) {
        lemma_occurs_char(s, c, find(s, seq![c])->0);
    }
    if s.contains(c) {
        let k = choose|k: int| 0 <= k < s.len() && s[k] == c;
        lemma_occurs_char(s, c, k);
    }
}

/// Splitting what was joined gives the parts back, when no part holds the separator.
pub proof fn law_split_undoes_join(parts: Seq<Seq<char>>, c: char)
    requires
        parts.len() > 0,
        forall|i: int| 0 <= i < parts.len() ==> !(#[trigger] parts[i]).contains(c),
    ensures
        split(join(parts, seq![c]), seq![c]) == parts,
    decreases parts.len(),
{
    if parts.len() == 1 {
        lemma_char_free(parts[0], c);
        lemma_split_whole(parts[0], seq![c]);
        assert(seq![parts[0]] =~= parts);
    } else {
        let rest = parts.skip(1);
        assert forall|i: int| 0 <= i < rest.len() implies !(#[trigger] rest[i]).contains(c) by {
            assert(rest[i] == parts[i + 1]);
        }
        law_split_undoes_join(rest, c);
        lemma_split_first(parts[0], c, join(rest, seq![c]));
        assert(seq![parts[0]] + rest =~= parts);
    }
}

/// Joining what was split gives the text back.
pub proof fn law_join_undoes_split(s: Seq<char>, pat: Seq<char>)
    requires
        pat.len() > 0,
    ensures
        join(split(s, pat), pat) == s,
{
    lemma_join_from(s, pat, 0);
    assert(s.skip(0) =~= s);
}

proof fn lemma_join_from(s: Seq<char>, pat: Seq<char>, start: int)
    requires
        0 <= start <= s.len(),
        pat.len() > 0,
    ensures
        split_from(s, pat, start).len() > 0,
        join(split_from(s, pat, start), pat) == s.skip(start),
    decreases s.len() - start,
{
    lemma_find_from(s, pat, start);
    let all = split_from(s, pat, start);
    match find_from(s, pat, start) {
        Some(i) => {
            let rest = split_from(s, pat, i + pat.len());
            lemma_join_from(s, pat, i + pat.len());
            assert(all.skip(1) =~= rest);
            assert(all[0] == s.subrange(start, i));
            assert(s.skip(start) =~= s.subrange(start, i) + s.subrange(i, i + pat.len()) + s.skip(
                i + pat.len(),
            ));
        },
        None => {
            assert(s.subrange(start, s.len() as int) =~= s.skip(start));
        },
    }
}

/// Splitting what was joined gives the parts back, and then the pieces of what stands
/// behind them.
pub proof fn lemma_split_joined(parts: Seq<Seq<char>>, c: char, t: Seq<char>)
    requires
        parts.len() > 0,
        forall|i: int| 0 <= i < parts.len() ==> !(#[trigger] parts[i]).contains(c),
    ensures
        split(join(parts, seq![c]) + (seq![c] + t), seq![c]) == parts + split(t, seq![c]),
    decreases parts.len(),
{
    let end = seq![c] + t;
    let all = join(parts, seq![c]) + end;
    if parts.len() == 1 {
        lemma_split_first(parts[0], c, t);
        assert(all =~= parts[0] + seq![c] + t);
        assert(seq![parts[0]] + split(t, seq![c]) =~= parts + split(t, seq![c]));
    } else {
        let rest = parts.skip(1);
        assert forall|i: int| 0 <= i < rest.len() implies !(#[trigger] rest[i]).contains(c) by {
            assert(rest[i] == parts[i + 1]);
        }
        lemma_split_joined(rest, c, t);
        lemma_split_first(parts[0], c, join(rest, seq![c]) + end);
        assert(all =~= parts[0] + seq![c] + (join(rest, seq![c]) + end));
        assert(seq![parts[0]] + (rest + split(t, seq![c])) =~= parts + split(t, seq![c]));
    }
}

/// Whether a text stands somewhere in another as one run.
pub open spec fn is_part(x: Seq<char>, s: Seq<char>) -> bool {
    exists|a: int, b: int| 0 <= a <= b <= s.len() && x == #[trigger] s.subrange(a, b)
}

/// Every piece of a split text is a part of it.
pub proof fn lemma_split_is_part(s: Seq<char>, pat: Seq<char>, start: int)
    requires
        0 <= start <= s.len(),
        pat.len() > 0,
    ensures
        forall|i: int|
            0 <= i < split_from(s, pat, start).len() ==> is_part(
                #[trigger] split_from(s, pat, start)[i],
                s,
            ),
    decreases s.len() - start,
{
    lemma_find_from(s, pat, start);
    let all = split_from(s, pat, start);
    match find_from(s, pat, start) {
        Some(k) => {
            lemma_split_is_part(s, pat, k + pat.len());
            let rest = split_from(s, pat, k + pat.len());
            assert forall|i: int| 0 <= i < all.len() implies is_part(#[trigger] all[i], s) by {
                if i == 0 {
                    assert(all[0] == s.subrange(start, k));
                } else {
                    assert(all[i] == rest[i - 1]);
                }
            }
        },
        None => {
            assert(all[0] == s.subrange(start, s.len() as int));
        },
    }
}

/// What comes before the first separator and what comes behind it are its two sides.
pub proof fn lemma_split_once_first(a: Seq<char>, c: char, t: Seq<char>)
    requires
        !a.contains(c),
    ensures
        split_once(a + seq![c] + t, seq![c]) == Some((a, t)),
{
    let s = a + seq![c] + t;
    let k = a.len() as int;
    assert forall|j: int| 0 <= j < k implies #[trigger] s[j] != c by {
        assert(s[j] == a[j]);
    }
    lemma_find_char(s, c, k, 0);
    assert(s.take(k) =~= a);
    assert(s.skip(k + 1) =~= t);
}

/// Whether two characters stand after each other at position `i`.
pub open spec fn pair_at(s: Seq<char>, x: char, y: char, i: int) -> bool {
    0 <= i && i + 1 < s.len() && s[i] == x && s[i + 1] == y
}

/// Two characters stand where the one is followed by the other.
pub proof fn lemma_occurs_pair(s: Seq<char>, x: char, y: char, i: int)
    ensures
        occurs_at(s, seq![x, y], i) <==> pair_at(s, x, y, i),
{
    if 0 <= i && i + 1 < s.len() {
        let part = s.subrange(i, i + 2);
        if part == seq![x, y] {
            assert(part[0] == x && part[1] == y);
        }
        if s[i] == x && s[i + 1] == y {
            assert(part =~= seq![x, y]);
        }
    }
}

/// A text holds two characters after each other when at some position it does.
pub proof fn lemma_pair_free(s: Seq<char>, x: char, y: char)
    ensures
        within(s, seq![x, y]) <==> exists|i: int| pair_at(s, x, y, i),
{
    lemma_find_from(s, seq![x, y], 0);
    if within(s, seq![x, y]) {
        let i = find(s, seq![x, y])->0;
        lemma_occurs_pair(s, x, y, i);
    }
    if exists|i: int| pair_at(s, x, y, i) {
        let i = choose|i: int| pair_at(s, x, y, i);
        lemma_occurs_pair(s, x, y, i);
    }
}

proof fn lemma_find_first(s: Seq<char>, pat: Seq<char>, k: int, i: int)
    requires
        0 <= i <= k,
        occurs_at(s, pat, k),
        forall|j: int| i <= j < k ==> !occurs_at(s, pat, j),
    ensures
        find_from(s, pat, i) == Some(k),
    decreases k - i,
{
    if i < k {
        assert(!occurs_at(s, pat, i));
        lemma_find_first(s, pat, k, i + 1);
    }
}

proof fn lemma_no_pair_before(a: Seq<char>, x: char, y: char, t: Seq<char>, j: int)
    requires
        x != y,
        !within(a, seq![x, y]),
        0 <= j < a.len(),
    ensures
        !occurs_at(a + seq![x, y] + t, seq![x, y], j),
{
    let s = a + seq![x, y] + t;
    assert(!pair_at(a, x, y, j)) by {
        lemma_pair_free(a, x, y);
    }
    assert(!pair_at(s, x, y, j)) by {
        assert(s[j] == a[j]);
        if j + 1 < a.len() {
            assert(s[j + 1] == a[j + 1]);
        } else {
            assert(s[j + 1] == seq![x, y][0]);
        }
    }
    lemma_occurs_pair(s, x, y, j);
}

proof fn lemma_find_pair(a: Seq<char>, x: char, y: char, t: Seq<char>)
    requires
        x != y,
        !within(a, seq![x, y]),
    ensures
        find(a + seq![x, y] + t, seq![x, y]) == Some(a.len() as int),
{
    let pat = seq![x, y];
    let s = a + pat + t;
    let k = a.len() as int;
    assert(occurs_at(s, pat, k)) by {
        assert(s[k] == pat[0] && s[k + 1] == pat[1]);
        lemma_occurs_pair(s, x, y, k);
    }
    assert forall|j: int| 0 <= j < k implies !occurs_at(s, pat, j) by {
        lemma_no_pair_before(a, x, y, t, j);
    }
    lemma_find_first(s, pat, k, 0);
}

/// Splitting at two different characters what was joined with them gives the parts back,
/// when no part holds them.
pub proof fn lemma_split_pairs(parts: Seq<Seq<char>>, x: char, y: char)
    requires
        x != y,
        parts.len() > 0,
        forall|i: int| 0 <= i < parts.len() ==> !within(#[trigger] parts[i], seq![x, y]),
    ensures
        split(join(parts, seq![x, y]), seq![x, y]) == parts,
    decreases parts.len(),
{
    let pat = seq![x, y];
    if parts.len() == 1 {
        lemma_split_whole(parts[0], pat);
        assert(seq![parts[0]] =~= parts);
    } else {
        let rest = parts.skip(1);
        assert forall|i: int| 0 <= i < rest.len() implies !within(#[trigger] rest[i], pat) by {
            assert(rest[i] == parts[i + 1]);
        }
        lemma_split_pairs(rest, x, y);
        let a = parts[0];
        let t = join(rest, pat);
        let s = a + pat + t;
        let k = a.len() as int;
        lemma_find_pair(a, x, y, t);
        lemma_split_shift(s, pat, k + 2, 0);
        assert(s.subrange(0, k) =~= a);
        assert(s.skip(k + 2) =~= t);
        assert(seq![a] + rest =~= parts);
    }
}

/// Joining with one part more puts it behind the others.
pub proof fn lemma_join_push(parts: Seq<Seq<char>>, x: Seq<char>, sep: Seq<char>)
    requires
        parts.len() > 0,
    ensures
        join(parts.push(x), sep) == join(parts, sep) + sep + x,
    decreases parts.len(),
{
    let more = parts.push(x);
    if parts.len() == 1 {
        assert(more.skip(1) =~= seq![x]);
        assert(join(more.skip(1), sep) == x);
    } else {
        lemma_join_push(parts.skip(1), x, sep);
        assert(more.skip(1) =~= parts.skip(1).push(x));
    }
    assert(join(more, sep) =~= join(parts, sep) + sep + x);
}

// ---------------------------------------------------------------------------
// Trimming
// ---------------------------------------------------------------------------

/// `s` without the occurrences of `pat` that end it, however many follow each other.
pub open spec fn trim_end(s: Seq<char>, pat: Seq<char>) -> Seq<char>
    decreases s.len(),
{
    if pat.len() > 0 && occurs_at(s, pat, s.len() - pat.len()) {
        trim_end(s.take(s.len() - pat.len()), pat)
    } else {
        s
    }
}

/// Drops every occurrence of `pat` that ends `s`.
pub fn trim_end_chars(s: &[char], pat: &[char]) -> (r: Vec<char>)
    requires
        pat@.len() > 0,
    ensures
        r@ == trim_end(s@, pat@),
{
    let mut end: usize = s.len();
    let m: usize = pat.len();
    assert(s@.take(end as int) =~= s@);
    while end >= m
        invariant
            end <= s@.len(),
            m == pat@.len(),
            m > 0,
            trim_end(s@.take(end as int), pat@) == trim_end(s@, pat@),
        ensures
            end <= s@.len(),
            trim_end(s@, pat@) == s@.take(end as int),
        decreases end,
    {
        let tail = copy_of(s, end - m, end);
        assert(s@.take(end as int).subrange(end - m, end as int) =~= tail@);
        if !same_chars(tail.as_slice(), pat) {
            break;
        }
        assert(s@.take(end as int).take(end - m) =~= s@.take(end - m));
        end = end - m;
    }
    copy_of(s, 0, end)
}

/// `s` without its leading characters out of `set`.
pub open spec fn strip_front(s: Seq<char>, set: Seq<char>) -> Seq<char>
    decreases s.len(),
{
    if s.len() > 0 && set.contains(s[0]) {
        strip_front(s.skip(1), set)
    } else {
        s
    }
}

/// `s` without its trailing characters out of `set`.
pub open spec fn strip_back(s: Seq<char>, set: Seq<char>) -> Seq<char>
    decreases s.len(),
{
    if s.len() > 0 && set.contains(s.last()) {
        strip_back(s.drop_last(), set)
    } else {
        s
    }
}

/// `s` without the characters out of `set` on both of its ends.
pub open spec fn strip(s: Seq<char>, set: Seq<char>) -> Seq<char> {
    strip_back(strip_front(s, set), set)
}

/// Whether a character is one of `set`.
pub fn one_of(c: char, set: &[char]) -> (r: bool)
    ensures
        r == set@.contains(c),
{
    let mut i: usize = 0;
    while i < set.len()
        invariant
            i <= set@.len(),
            forall|j: int| 0 <= j < i ==> set@[j] != c,
        decreases set@.len() - i,
    {
        if set[i] == c {
            return true;
        }
        i += 1;
    }
    false
}

/// How many leading characters of `s` are out of `set`.
fn front_bound(s: &[char], set: &[char]) -> (lo: usize)
    ensures
        lo <= s@.len(),
        s@.skip(lo as int) == strip_front(s@, set@),
{
    let n: usize = s.len();
    let mut lo: usize = 0;
    assert(s@.skip(0) =~= s@);
    while lo < n && one_of(s[lo], set)
        invariant
            lo <= n,
            n == s@.len(),
            strip_front(s@.skip(lo as int), set@) == strip_front(s@, set@),
        decreases n - lo,
    {
        assert(s@.skip(lo as int)[0] == s@[lo as int]);
        assert(s@.skip(lo as int).skip(1) =~= s@.skip(lo + 1));
        lo += 1;
    }
    assert(strip_front(s@, set@) == s@.skip(lo as int)) by {
        if lo < n {
            assert(s@.skip(lo as int)[0] == s@[lo as int]);
        }
    }
    lo
}

/// The bounds of what is left of `s` when characters out of `set` are dropped from
/// both ends.
pub fn strip_bounds(s: &[char], set: &[char]) -> (r: (usize, usize))
    ensures
        r.0 <= r.1 <= s@.len(),
        s@.subrange(r.0 as int, r.1 as int) == strip(s@, set@),
{
    let n: usize = s.len();
    let lo: usize = front_bound(s, set);
    let mut hi: usize = n;
    assert(s@.subrange(lo as int, hi as int) =~= s@.skip(lo as int));
    while hi > lo && one_of(s[hi - 1], set)
        invariant
            lo <= hi <= n,
            n == s@.len(),
            strip_back(s@.subrange(lo as int, hi as int), set@) == strip(s@, set@),
        decreases hi,
    {
        assert(s@.subrange(lo as int, hi as int).last() == s@[hi - 1]);
        assert(s@.subrange(lo as int, hi as int).drop_last() =~= s@.subrange(lo as int, hi - 1));
        hi -= 1;
    }
    proof {
        if hi > lo {
            assert(s@.subrange(lo as int, hi as int).last() == s@[hi - 1]);
        }
    }
    (lo, hi)
}

/// Drops the characters out of `set` from both ends of `s`.
pub fn strip_chars(s: &[char], set: &[char]) -> (r: Vec<char>)
    ensures
        r@ == strip(s@, set@),
{
    let (lo, hi) = strip_bounds(s, set);
    copy_of(s, lo, hi)
}

/// Drops one character from both ends of a string, without copying it.
pub fn strip_str<'a>(s: &'a str, c: char) -> (r: &'a str)
    ensures
        r@ == strip(s@, seq![c]),
{
    let chars = chars_of(s);
    let set: [char; 1] = [c];
    assert(set@ =~= seq![c]);
    let (lo, hi) = strip_bounds(chars.as_slice(), set.as_slice());
    s.substring_char(lo, hi)
}

/// Drops one character from the front of a string, without copying it.
pub fn strip_front_str<'a>(s: &'a str, c: char) -> (r: &'a str)
    ensures
        r@ == strip_front(s@, seq![c]),
{
    let chars = chars_of(s);
    let set: [char; 1] = [c];
    assert(set@ =~= seq![c]);
    let lo: usize = front_bound(chars.as_slice(), set.as_slice());
    assert(s@.subrange(lo as int, s@.len() as int) =~= s@.skip(lo as int));
    s.substring_char(lo, chars.len())
}

/// What stripping leaves is a part of the text.
pub proof fn lemma_strip_is_part(s: Seq<char>, set: Seq<char>) -> (r: (int, int))
    ensures
        0 <= r.0 <= r.1 <= s.len(),
        strip(s, set) == s.subrange(r.0, r.1),
{
    let lo = lemma_strip_front_is_part(s, set);
    let t = strip_front(s, set);
    let hi = lemma_strip_back_is_part(t, set);
    assert(t.subrange(0, hi) =~= s.subrange(lo, lo + hi));
    (lo, lo + hi)
}

proof fn lemma_strip_front_is_part(s: Seq<char>, set: Seq<char>) -> (lo: int)
    ensures
        0 <= lo <= s.len(),
        strip_front(s, set) == s.subrange(lo, s.len() as int),
    decreases s.len(),
{
    if s.len() > 0 && set.contains(s[0]) {
        let lo = lemma_strip_front_is_part(s.skip(1), set);
        assert(s.skip(1).subrange(lo, s.len() - 1) =~= s.subrange(lo + 1, s.len() as int));
        lo + 1
    } else {
        assert(s.subrange(0, s.len() as int) =~= s);
        0
    }
}

proof fn lemma_strip_back_is_part(s: Seq<char>, set: Seq<char>) -> (hi: int)
    ensures
        0 <= hi <= s.len(),
        strip_back(s, set) == s.subrange(0, hi),
    decreases s.len(),
{
    if s.len() > 0 && set.contains(s.last()) {
        let hi = lemma_strip_back_is_part(s.drop_last(), set);
        assert(s.drop_last().subrange(0, hi) =~= s.subrange(0, hi));
        hi
    } else {
        assert(s.subrange(0, s.len() as int) =~= s);
        s.len() as int
    }
}

/// Stripping the end of a text stops at a character that is not out of `set`.
pub proof fn lemma_strip_back_stops(a: Seq<char>, x: Seq<char>, set: Seq<char>) -> (k: int)
    requires
        a.len() > 0,
        !set.contains(a.last()),
    ensures
        0 <= k <= x.len(),
        strip_back(a + x, set) == a + x.take(k),
    decreases x.len(),
{
    let s = a + x;
    if x.len() == 0 {
        assert(s =~= a);
        assert(a + x.take(0) =~= a);
        0
    } else {
        assert(s.last() == x.last());
        if set.contains(x.last()) {
            assert(s.drop_last() =~= a + x.drop_last());
            let k = lemma_strip_back_stops(a, x.drop_last(), set);
            assert(x.drop_last().take(k) =~= x.take(k));
            k
        } else {
            assert(x.take(x.len() as int) =~= x);
            x.len() as int
        }
    }
}

/// Stripping a text that does not hold `pat` leaves one that does not hold it.
pub proof fn lemma_strip_free(s: Seq<char>, set: Seq<char>, pat: Seq<char>)
    requires
        !within(s, pat),
    ensures
        !within(strip(s, set), pat),
{
    let (a, b) = lemma_strip_is_part(s, set);
    lemma_part_free(s, pat, a, b);
}

/// Whether a text neither begins nor ends with a character out of `set`.
pub open spec fn is_bare(s: Seq<char>, set: Seq<char>) -> bool {
    s.len() > 0 ==> !set.contains(s[0]) && !set.contains(s.last())
}

/// Stripping leaves a bare text, and leaves a bare text alone, also behind a character
/// that it drops.
pub proof fn lemma_strip_bare(s: Seq<char>, set: Seq<char>)
    ensures
        is_bare(strip(s, set), set),
        is_bare(s, set) ==> strip(s, set) == s,
        is_bare(s, set) ==> forall|c: char| #[trigger]
            set.contains(c) ==> strip(seq![c] + s, set) == s,
{
    lemma_strip_front_bare(s, set);
    let t = strip_front(s, set);
    lemma_strip_back_bare(t, set);
    if is_bare(s, set) {
        assert forall|c: char| #[trigger] set.contains(c) implies strip(seq![c] + s, set) == s by {
            assert((seq![c] + s)[0] == c);
            assert((seq![c] + s).skip(1) =~= s);
        }
    }
}

proof fn lemma_strip_front_bare(s: Seq<char>, set: Seq<char>)
    ensures
        strip_front(s, set).len() > 0 ==> !set.contains(strip_front(s, set)[0]),
    decreases s.len(),
{
    if s.len() > 0 && set.contains(s[0]) {
        lemma_strip_front_bare(s.skip(1), set);
    }
}

proof fn lemma_strip_back_bare(s: Seq<char>, set: Seq<char>)
    ensures
        strip_back(s, set).len() > 0 ==> s.len() > 0 && strip_back(s, set)[0] == s[0]
            && !set.contains(strip_back(s, set).last()),
    decreases s.len(),
{
    if s.len() > 0 && set.contains(s.last()) {
        lemma_strip_back_bare(s.drop_last(), set);
    }
}

// ---------------------------------------------------------------------------
// Case
// ---------------------------------------------------------------------------

/// The lower-case form of an ASCII letter; any other character itself.
pub open spec fn lower_char(c: char) -> char {
    if 'A' <= c && c <= 'Z' {
        ((c as u8) + 32) as u8 as char
    } else {
        c
    }
}

/// The upper-case form of an ASCII letter; any other character itself.
pub open spec fn upper_char(c: char) -> char {
    if 'a' <= c && c <= 'z' {
        ((c as u8) - 32) as u8 as char
    } else {
        c
    }
}

/// A text with its ASCII letters in lower case.
pub open spec fn lower(s: Seq<char>) -> Seq<char> {
    Seq::new(s.len(), |i: int| lower_char(s[i]))
}

/// A text with its ASCII letters in upper case.
pub open spec fn upper(s: Seq<char>) -> Seq<char> {
    Seq::new(s.len(), |i: int| upper_char(s[i]))
}

/// Puts ASCII letters in lower case.
pub fn lower_chars(s: &[char]) -> (r: Vec<char>)
    ensures
        r@ == lower(s@),
{
    let mut r: Vec<char> = Vec::new();
    let mut i: usize = 0;
    while i < s.len()
        invariant
            i <= s@.len(),
            r@.len() == i,
            forall|j: int| 0 <= j < i ==> r@[j] == lower_char(s@[j]),
        decreases s@.len() - i,
    {
        let c = s[i];
        if 'A' <= c && c <= 'Z' {
            r.push(((c as u8) + 32) as char);
        } else {
            r.push(c);
        }
        i += 1;
    }
    assert(r@ =~= lower(s@));
    r
}

/// Puts ASCII letters in upper case.
pub fn upper_chars(s: &[char]) -> (r: Vec<char>)
    ensures
        r@ == upper(s@),
{
    let mut r: Vec<char> = Vec::new();
    let mut i: usize = 0;
    while i < s.len()
        invariant
            i <= s@.len(),
            r@.len() == i,
            forall|j: int| 0 <= j < i ==> r@[j] == upper_char(s@[j]),
        decreases s@.len() - i,
    {
        let c = s[i];
        if 'a' <= c && c <= 'z' {
            r.push(((c as u8) - 32) as char);
        } else {
            r.push(c);
        }
        i += 1;
    }
    assert(r@ =~= upper(s@));
    r
}

// ---------------------------------------------------------------------------
// What the operations on text are
// ---------------------------------------------------------------------------

/// Runs of texts denote what each of them holds, in its place.
pub proof fn law_texts_denote_what_they_hold(r: Seq<Vec<char>>, t: Seq<&str>, s: Seq<String>, i: int)
    ensures
        rows(r).len() == r.len(),
        texts(t).len() == t.len(),
        strings(s).len() == s.len(),
        0 <= i < r.len() ==> rows(r)[i] == r[i]@,
        0 <= i < t.len() ==> texts(t)[i] == t[i]@,
        0 <= i < s.len() ==> strings(s)[i] == s[i]@,
{
}

/// A text that has another between two others holds it, and what is found stands where it is
/// found.
pub proof fn law_what_stands_between_is_found(a: Seq<char>, pat: Seq<char>, b: Seq<char>)
    ensures
        within(a + pat + b, pat),
        find(a + pat + b, pat) is Some,
        0 <= find(a + pat + b, pat)->0 <= a.len(),
{
    let t = a + pat + b;
    assert(occurs_at(t, pat, a.len() as int)) by {
        assert(t.subrange(a.len() as int, (a.len() + pat.len()) as int) =~= pat);
    }
    lemma_find_from(t, pat, 0);
}

/// What is found in a text stands there, with the rest of the text around it.
pub proof fn law_what_is_found_stands_there(s: Seq<char>, pat: Seq<char>)
    requires
        find(s, pat) is Some,
    ensures
        0 <= find(s, pat)->0,
        find(s, pat)->0 + pat.len() <= s.len(),
        s == s.take(find(s, pat)->0) + pat + s.skip(find(s, pat)->0 + pat.len()),
        within(s, pat),
{
    lemma_find_from(s, pat, 0);
    let k = find(s, pat)->0;
    assert(s.subrange(k, k + pat.len()) == pat);
    assert(s =~= s.take(k) + s.subrange(k, k + pat.len()) + s.skip(k + pat.len()));
}

/// A text that is parted once is what stands before the first separator, the separator, and
/// the rest; a text without the separator is not parted.
pub proof fn law_parting_is_at_the_first(s: Seq<char>, c: char)
    ensures
        split_once(s, seq![c]) matches Some((a, b)) ==> s == a + seq![c] + b && !a.contains(c),
        split_once(s, seq![c]) is None <==> !s.contains(c),
{
    lemma_char_free(s, c);
    lemma_find_from(s, seq![c], 0);
    match find(s, seq![c]) {
        Some(k) => {
            let a = s.take(k);
            let b = s.skip(k + 1);
            lemma_occurs_char(s, c, k);
            assert(s =~= a + seq![c] + b);
            if a.contains(c) {
                let j = choose|j: int| 0 <= j < a.len() && a[j] == c;
                assert(s[j] == c);
                lemma_occurs_char(s, c, j);
            }
        },
        None => {},
    }
}

/// Lower case changes the letters from A to Z alone, each to the letter 32 places on, and
/// upper case does the reverse to the letters from a to z.
pub proof fn law_case_changes_letters_alone(s: Seq<char>, i: int)
    requires
        0 <= i < s.len(),
    ensures
        lower(s).len() == s.len(),
        upper(s).len() == s.len(),
        65 <= s[i] as u32 <= 90 ==> lower(s)[i] as u32 == s[i] as u32 + 32,
        !(65 <= s[i] as u32 <= 90) ==> lower(s)[i] == s[i],
        97 <= s[i] as u32 <= 122 ==> upper(s)[i] as u32 == s[i] as u32 - 32,
        !(97 <= s[i] as u32 <= 122) ==> upper(s)[i] == s[i],
        upper_char(lower_char(s[i])) == upper_char(s[i]),
        lower_char(upper_char(s[i])) == lower_char(s[i]),
{
}

/// Stripping drops the characters of the set at both ends and nothing else.
pub proof fn law_strip_drops_the_ends_alone(a: Seq<char>, s: Seq<char>, b: Seq<char>, set: Seq<char>)
    requires
        is_bare(s, set),
        forall|i: int| 0 <= i < a.len() ==> set.contains(#[trigger] a[i]),
        forall|i: int| 0 <= i < b.len() ==> set.contains(#[trigger] b[i]),
    ensures
        strip(a + s + b, set) == s,
{
    if s.len() == 0 {
        let ab = a + s + b;
        assert forall|i: int| 0 <= i < ab.len() implies set.contains(#[trigger] ab[i]) by {
            if i < a.len() {
                assert(ab[i] == a[i]);
            } else {
                assert(ab[i] == b[i - a.len()]);
            }
        }
        lemma_strip_front_drops(ab, Seq::empty(), set);
        assert(ab + Seq::<char>::empty() =~= ab);
        assert(strip_front(Seq::empty(), set) =~= Seq::<char>::empty());
        assert(s =~= Seq::<char>::empty());
        assert(strip_back(Seq::<char>::empty(), set) =~= Seq::<char>::empty());
    } else {
        lemma_strip_front_drops(a, s + b, set);
        assert(a + s + b =~= a + (s + b));
        assert((s + b)[0] == s[0]);
        lemma_strip_back_drops(s, b, set);
    }
}

proof fn lemma_strip_front_drops(a: Seq<char>, s: Seq<char>, set: Seq<char>)
    requires
        forall|i: int| 0 <= i < a.len() ==> set.contains(#[trigger] a[i]),
    ensures
        strip_front(a + s, set) == strip_front(s, set),
    decreases a.len(),
{
    if a.len() == 0 {
        assert(a + s =~= s);
    } else {
        let rest = a.skip(1);
        assert forall|i: int| 0 <= i < rest.len() implies set.contains(#[trigger] rest[i]) by {
            assert(rest[i] == a[i + 1]);
        }
        lemma_strip_front_drops(rest, s, set);
        assert((a + s)[0] == a[0]);
        assert((a + s).skip(1) =~= rest + s);
    }
}

proof fn lemma_strip_back_drops(s: Seq<char>, b: Seq<char>, set: Seq<char>)
    requires
        s.len() > 0,
        !set.contains(s.last()),
        forall|i: int| 0 <= i < b.len() ==> set.contains(#[trigger] b[i]),
    ensures
        strip_back(s + b, set) == s,
    decreases b.len(),
{
    if b.len() == 0 {
        assert(s + b =~= s);
    } else {
        let rest = b.drop_last();
        assert forall|i: int| 0 <= i < rest.len() implies set.contains(#[trigger] rest[i]) by {
            assert(rest[i] == b[i]);
        }
        lemma_strip_back_drops(s, rest, set);
        assert((s + b).last() == b[b.len() - 1]);
        assert((s + b).drop_last() =~= s + rest);
    }
}

/// Trimming drops one more occurrence at the end, as long as there is one, and leaves a text
/// alone that does not end with the pattern.
pub proof fn law_trim_drops_the_end_alone(s: Seq<char>, pat: Seq<char>)
    requires
        pat.len() > 0,
    ensures
        trim_end(s + pat, pat) == trim_end(s, pat),
        (forall|x: Seq<char>| s != #[trigger] (x + pat)) ==> trim_end(s, pat) == s,
{
    let t = s + pat;
    assert(t.subrange(t.len() - pat.len(), t.len() as int) =~= pat);
    assert(t.take(t.len() - pat.len()) =~= s);
    if occurs_at(s, pat, s.len() - pat.len()) {
        let x = s.take(s.len() - pat.len());
        assert(s =~= x + s.subrange(s.len() - pat.len(), s.len() as int));
        assert(s == x + pat);
    }
}

/// Parts are joined with the separator between each two, and nowhere else.
pub proof fn law_join_puts_the_separator_between(
    parts: Seq<Seq<char>>,
    part: Seq<char>,
    sep: Seq<char>,
)
    ensures
        join(Seq::empty(), sep).len() == 0,
        join(seq![part], sep) == part,
        parts.len() > 0 ==> join(parts.push(part), sep) == join(parts, sep) + sep + part,
{
    if parts.len() > 0 {
        lemma_join_push(parts, part, sep);
    }
}

/// Stripping the front drops the characters of the set there, and nothing else.
pub proof fn law_strip_front_drops_the_front_alone(a: Seq<char>, s: Seq<char>, set: Seq<char>)
    requires
        forall|i: int| 0 <= i < a.len() ==> set.contains(#[trigger] a[i]),
        s.len() > 0 ==> !set.contains(s[0]),
    ensures
        strip_front(a + s, set) == s,
{
    lemma_strip_front_drops(a, s, set);
}

} // verus!
