//! Text as sequences of characters: trimming, splitting, lower-casing and joining.

use vstd::prelude::*;

verus! {

broadcast use vstd::string::group_string_axioms;

/// `String::push` appends one character to the end of the string.
pub assume_specification[ String::push ](s: &mut String, ch: char)
    ensures
        final(s)@ == old(s)@.push(ch),
;

/// The characters with the Unicode `White_Space` property.
pub open spec fn white_space(c: char) -> bool {
    let n = c as u32;
    ||| 0x9 <= n <= 0xd
    ||| n == 0x20
    ||| n == 0x85
    ||| n == 0xa0
    ||| n == 0x1680
    ||| 0x2000 <= n <= 0x200a
    ||| n == 0x2028
    ||| n == 0x2029
    ||| n == 0x202f
    ||| n == 0x205f
    ||| n == 0x3000
}

/// An ASCII capital becomes its small letter; any other character stays.
pub open spec fn lower_char(c: char) -> char {
    if 'A' <= c <= 'Z' {
        (c as u32 + 32) as char
    } else {
        c
    }
}

/// `s` with its ASCII capitals replaced by small letters.
pub open spec fn lowered(s: Seq<char>) -> Seq<char> {
    s.map_values(|c: char| lower_char(c))
}

/// `s` without its leading white space.
pub open spec fn trimmed_start(s: Seq<char>) -> Seq<char>
    decreases s.len(),
{
    if s.len() > 0 && white_space(s[0]) {
        trimmed_start(s.drop_first())
    } else {
        s
    }
}

/// `s` without its trailing white space.
pub open spec fn trimmed_end(s: Seq<char>) -> Seq<char>
    decreases s.len(),
{
    if s.len() > 0 && white_space(s.last()) {
        trimmed_end(s.drop_last())
    } else {
        s
    }
}

/// `s` without white space at either end.
pub open spec fn trimmed(s: Seq<char>) -> Seq<char> {
    trimmed_end(trimmed_start(s))
}

/// The pieces of `s` between the characters for which `cut` holds. There is one piece more than
/// there are such characters, and pieces can be empty.
pub open spec fn pieces(s: Seq<char>, cut: spec_fn(char) -> bool) -> Seq<Seq<char>>
    decreases s.len(),
{
    if s.len() == 0 {
        seq![Seq::<char>::empty()]
    } else {
        let before = pieces(s.drop_last(), cut);
        if cut(s.last()) {
            before.push(Seq::<char>::empty())
        } else {
            before.drop_last().push(before.last().push(s.last()))
        }
    }
}

/// Cuts at every `separator`.
pub open spec fn cut_at(separator: char) -> spec_fn(char) -> bool {
    |c: char| c == separator
}

/// The pieces of `s` between the occurrences of `separator`.
pub open spec fn split_at_char(s: Seq<char>, separator: char) -> Seq<Seq<char>> {
    pieces(s, cut_at(separator))
}

/// Cuts at white space.
pub open spec fn cut_at_white_space() -> spec_fn(char) -> bool {
    |c: char| white_space(c)
}

/// Keeps what is not empty.
pub open spec fn filled() -> spec_fn(Seq<char>) -> bool {
    |w: Seq<char>| w.len() > 0
}

/// The runs of characters other than white space.
pub open spec fn words(s: Seq<char>) -> Seq<Seq<char>> {
    pieces(s, cut_at_white_space()).filter(filled())
}

/// `parts` one after the other with `separator` between neighbours.
pub open spec fn joined(parts: Seq<Seq<char>>, separator: Seq<char>) -> Seq<char>
    decreases parts.len(),
{
    if parts.len() == 0 {
        Seq::empty()
    } else if parts.len() == 1 {
        parts[0]
    } else {
        joined(parts.drop_last(), separator) + separator + parts.last()
    }
}

/// The index of the first `c` in `s`, or the length of `s` where there is none.
pub open spec fn first_index(s: Seq<char>, c: char) -> int
    decreases s.len(),
{
    if s.len() == 0 || s[0] == c {
        0
    } else {
        1 + first_index(s.drop_first(), c)
    }
}

/// The characters that the strings hold.
pub open spec fn texts(v: Seq<String>) -> Seq<Seq<char>> {
    v.map_values(|s: String| s@)
}

/// The characters of `s`.
pub fn chars_of(s: &str) -> (chars: Vec<char>)
    ensures
        chars@ == s@,
{
    let mut chars: Vec<char> = Vec::new();
    for c in it: s.chars()
        invariant
            it.seq() == s@,
            chars@ == s@.take(it.index()),
    {
        chars.push(c);
        assert(s@.take(it.index() + 1) =~= s@.take(it.index()).push(c));
    }
    assert(s@.take(s@.len() as int) =~= s@);
    chars
}

/// The string that `chars[from..to]` spells.
pub fn string_of(chars: &Vec<char>, from: usize, to: usize) -> (s: String)
    requires
        from <= to <= chars@.len(),
    ensures
        s@ == chars@.subrange(from as int, to as int),
{
    let mut s = String::new();
    let mut i: usize = from;
    while i < to
        invariant
            from <= i <= to <= chars@.len(),
            s@ == chars@.subrange(from as int, i as int),
        decreases to - i,
    {
        s.push(chars[i]);
        assert(chars@.subrange(from as int, i + 1) =~= chars@.subrange(from as int, i as int).push(
            chars@[i as int],
        ));
        i += 1;
    }
    s
}

/// Whether two texts hold the same characters.
pub fn same_text(a: &str, b: &str) -> (same: bool)
    ensures
        same == (a@ == b@),
{
    let left = chars_of(a);
    let right = chars_of(b);
    if left.len() != right.len() {
        return false;
    }
    let mut i: usize = 0;
    while i < left.len()
        invariant
            left@ == a@,
            right@ == b@,
            left@.len() == right@.len(),
            i <= left@.len(),
            left@.take(i as int) == right@.take(i as int),
        decreases left@.len() - i,
    {
        if left[i] != right[i] {
            assert(a@[i as int] != b@[i as int]);
            return false;
        }
        assert(left@.take(i + 1) =~= left@.take(i as int).push(left@[i as int]));
        assert(right@.take(i + 1) =~= right@.take(i as int).push(right@[i as int]));
        i += 1;
    }
    assert(left@.take(i as int) =~= a@);
    assert(right@.take(i as int) =~= b@);
    true
}

/// Whether `c` has the Unicode `White_Space` property.
pub fn is_white_space(c: char) -> (yes: bool)
    ensures
        yes == white_space(c),
        yes == ('\t' <= c <= '\r' || c == ' ' || c == '\u{85}' || c == '\u{a0}' || c == '\u{1680}'
            || '\u{2000}' <= c <= '\u{200a}' || c == '\u{2028}' || c == '\u{2029}' || c == '\u{202f}'
            || c == '\u{205f}' || c == '\u{3000}'),
{
    let n: u32 = c as u32;
    (0x9 <= n && n <= 0xd) || n == 0x20 || n == 0x85 || n == 0xa0 || n == 0x1680 || (0x2000 <= n
        && n <= 0x200a) || n == 0x2028 || n == 0x2029 || n == 0x202f || n == 0x205f || n == 0x3000
}

/// `s` with its ASCII capitals replaced by small letters.
pub fn lowercase(s: &str) -> (low: String)
    ensures
        low@ == lowered(s@),
{
    let chars = chars_of(s);
    let mut low = String::new();
    let mut i: usize = 0;
    while i < chars.len()
        invariant
            chars@ == s@,
            i <= chars@.len(),
            low@ == lowered(chars@.take(i as int)),
        decreases chars@.len() - i,
    {
        let c = chars[i];
        if 'A' <= c && c <= 'Z' {
            low.push((c as u8 + 32) as char);
        } else {
            low.push(c);
        }
        assert(lowered(chars@.take(i + 1)) =~= lowered(chars@.take(i as int)).push(lower_char(c)));
        i += 1;
    }
    assert(chars@.take(i as int) =~= s@);
    low
}

/// `s` without white space at either end.
pub fn trim(s: &str) -> (t: String)
    ensures
        t@ == trimmed(s@),
{
    let chars = chars_of(s);
    let mut from: usize = 0;
    assert(chars@.skip(0) =~= s@);
    while from < chars.len() && is_white_space(chars[from])
        invariant
            chars@ == s@,
            from <= chars@.len(),
            trimmed_start(s@) == trimmed_start(chars@.skip(from as int)),
        decreases chars@.len() - from,
    {
        assert(chars@.skip(from as int).drop_first() =~= chars@.skip(from + 1));
        from += 1;
    }
    let mut to: usize = chars.len();
    assert(chars@.subrange(from as int, to as int) =~= chars@.skip(from as int));
    while from < to && is_white_space(chars[to - 1])
        invariant
            chars@ == s@,
            from <= to <= chars@.len(),
            trimmed(s@) == trimmed_end(chars@.subrange(from as int, to as int)),
        decreases to - from,
    {
        assert(chars@.subrange(from as int, to as int).drop_last() =~= chars@.subrange(
            from as int,
            to - 1,
        ));
        to -= 1;
    }
    string_of(&chars, from, to)
}

/// The pieces of `s` between the occurrences of `separator`.
pub fn split_text(s: &str, separator: char) -> (parts: Vec<String>)
    ensures
        texts(parts@) == split_at_char(s@, separator),
{
    let chars = chars_of(s);
    let ghost cut = cut_at(separator);
    let mut parts: Vec<String> = Vec::new();
    let mut part = String::new();
    let mut i: usize = 0;
    assert(texts(parts@).push(part@) =~= pieces(chars@.take(0), cut));
    while i < chars.len()
        invariant
            chars@ == s@,
            i <= chars@.len(),
            cut == cut_at(separator),
            texts(parts@).push(part@) == pieces(chars@.take(i as int), cut),
        decreases chars@.len() - i,
    {
        let c = chars[i];
        let ghost done = texts(parts@);
        let ghost open_part = part@;
        assert(chars@.take(i + 1).drop_last() =~= chars@.take(i as int));
        assert(done.push(open_part).drop_last() =~= done);
        if c == separator {
            parts.push(part);
            part = String::new();
            assert(texts(parts@) =~= done.push(open_part));
        } else {
            part.push(c);
        }
        i += 1;
    }
    assert(chars@.take(i as int) =~= s@);
    let ghost done = texts(parts@);
    let ghost open_part = part@;
    parts.push(part);
    assert(texts(parts@) =~= done.push(open_part));
    parts
}

/// The runs of characters other than white space.
pub fn words_of(s: &str) -> (found: Vec<String>)
    ensures
        texts(found@) == words(s@),
{
    let chars = chars_of(s);
    let ghost cut = cut_at_white_space();
    let mut found: Vec<String> = Vec::new();
    let mut word = String::new();
    let mut i: usize = 0;
    proof {
        assert(pieces(chars@.take(0), cut).drop_last() =~= Seq::empty());
        reveal(Seq::filter);
        assert(texts(found@) =~= Seq::empty());
    }
    while i < chars.len()
        invariant
            chars@ == s@,
            i <= chars@.len(),
            cut == cut_at_white_space(),
            pieces(chars@.take(i as int), cut).len() > 0,
            texts(found@) == pieces(chars@.take(i as int), cut).drop_last().filter(filled()),
            word@ == pieces(chars@.take(i as int), cut).last(),
        decreases chars@.len() - i,
    {
        let c = chars[i];
        let ghost before = pieces(chars@.take(i as int), cut);
        let ghost known = texts(found@);
        let ghost last_word = word@;
        assert(chars@.take(i + 1).drop_last() =~= chars@.take(i as int));
        if is_white_space(c) {
            proof {
                reveal(Seq::filter);
                assert(before.push(Seq::empty()).drop_last() =~= before);
            }
            if word.as_str().is_empty() {
            } else {
                found.push(word);
                word = String::new();
                assert(texts(found@) =~= known.push(last_word));
            }
        } else {
            word.push(c);
            assert(before.drop_last().push(last_word.push(c)).drop_last() =~= before.drop_last());
        }
        i += 1;
    }
    assert(chars@.take(i as int) =~= s@);
    proof {
        reveal(Seq::filter);
    }
    let ghost known = texts(found@);
    let ghost last_word = word@;
    if word.as_str().is_empty() {
    } else {
        found.push(word);
        assert(texts(found@) =~= known.push(last_word));
    }
    found
}

/// `parts` one after the other with `separator` between neighbours.
pub fn join_texts(parts: &Vec<String>, separator: &str) -> (all: String)
    ensures
        all@ == joined(texts(parts@), separator@),
{
    let mut all = String::new();
    let mut i: usize = 0;
    while i < parts.len()
        invariant
            i <= parts@.len(),
            all@ == joined(texts(parts@).take(i as int), separator@),
        decreases parts@.len() - i,
    {
        assert(texts(parts@).take(i + 1).drop_last() =~= texts(parts@).take(i as int));
        if i > 0 {
            all.append(separator);
        }
        all.append(parts[i].as_str());
        assert(all@ =~= joined(texts(parts@).take(i + 1), separator@));
        i += 1;
    }
    assert(texts(parts@).take(i as int) =~= texts(parts@));
    all
}

/// What stands before and what stands after the first `separator`; `None` where there is none.
pub fn split_once_text(s: &str, separator: char) -> (halves: Option<(String, String)>)
    ensures
        halves is None <==> first_index(s@, separator) == s@.len(),
        halves matches Some((before, after)) ==> {
            let at = first_index(s@, separator);
            &&& 0 <= at < s@.len()
            &&& before@ == s@.take(at)
            &&& after@ == s@.skip(at + 1)
        },
{
    let chars = chars_of(s);
    let mut i: usize = 0;
    assert(chars@.skip(0) =~= s@);
    while i < chars.len() && chars[i] != separator
        invariant
            chars@ == s@,
            i <= chars@.len(),
            first_index(s@, separator) == i + first_index(chars@.skip(i as int), separator),
        decreases chars@.len() - i,
    {
        assert(chars@.skip(i as int).drop_first() =~= chars@.skip(i + 1));
        i += 1;
    }
    if i < chars.len() {
        let before = string_of(&chars, 0, i);
        let after = string_of(&chars, i + 1, chars.len());
        assert(before@ =~= s@.take(i as int));
        assert(after@ =~= s@.skip(i + 1));
        Some((before, after))
    } else {
        None
    }
}

/// Whether `w` is a word: it is not empty, and there is no white space in it.
pub open spec fn is_word(w: Seq<char>) -> bool {
    w.len() > 0 && forall|i: int| 0 <= i < w.len() ==> !white_space(#[trigger] w[i])
}

/// What is cut nowhere is one piece.
pub proof fn lemma_one_piece(t: Seq<char>, cut: spec_fn(char) -> bool)
    requires
        forall|i: int| 0 <= i < t.len() ==> !cut(#[trigger] t[i]),
    ensures
        pieces(t, cut) == seq![t],
    decreases t.len(),
{
    if t.len() > 0 {
        let front = t.drop_last();
        assert forall|i: int| 0 <= i < front.len() implies !cut(#[trigger] front[i]) by {
            assert(front[i] == t[i]);
        }
        lemma_one_piece(front, cut);
        assert(!cut(t[t.len() - 1]));
        assert(front.push(t.last()) =~= t);
        assert(seq![front].drop_last().push(front.push(t.last())) =~= seq![t]);
    } else {
        assert(t =~= Seq::empty());
    }
}

proof fn lemma_pieces_some(s: Seq<char>, cut: spec_fn(char) -> bool)
    ensures
        pieces(s, cut).len() > 0,
    decreases s.len(),
{
    if s.len() > 0 {
        lemma_pieces_some(s.drop_last(), cut);
    }
}

/// What follows the last cut is the last piece.
proof fn lemma_last_piece(s: Seq<char>, c: char, t: Seq<char>, cut: spec_fn(char) -> bool)
    requires
        cut(c),
        forall|i: int| 0 <= i < t.len() ==> !cut(#[trigger] t[i]),
    ensures
        pieces(s.push(c) + t, cut) == pieces(s, cut).push(t),
    decreases t.len(),
{
    let all = s.push(c) + t;
    lemma_pieces_some(s, cut);
    if t.len() == 0 {
        assert(all =~= s.push(c));
        assert(s.push(c).drop_last() =~= s);
        assert(t =~= Seq::empty());
    } else {
        let front = t.drop_last();
        assert forall|i: int| 0 <= i < front.len() implies !cut(#[trigger] front[i]) by {
            assert(front[i] == t[i]);
        }
        lemma_last_piece(s, c, front, cut);
        assert(all.drop_last() =~= s.push(c) + front);
        assert(!cut(t[t.len() - 1]));
        assert(front.push(t.last()) =~= t);
        let before = pieces(s, cut).push(front);
        assert(before.drop_last().push(before.last().push(t.last())) =~= pieces(s, cut).push(t));
    }
}

/// Words with one blank between neighbours are those words.
pub proof fn lemma_words_of_joined(ws: Seq<Seq<char>>)
    requires
        forall|i: int| 0 <= i < ws.len() ==> is_word(#[trigger] ws[i]),
    ensures
        words(joined(ws, seq![' '])) == ws,
    decreases ws.len(),
{
    reveal(Seq::filter);
    let cut = cut_at_white_space();
    let blank = seq![' '];
    if ws.len() == 0 {
        let v = seq![Seq::<char>::empty()];
        assert(joined(ws, blank).len() == 0);
        assert(pieces(joined(ws, blank), cut) == v);
        assert(v.drop_last() =~= Seq::<Seq<char>>::empty());
        assert(v.drop_last().filter(filled()).len() == 0);
        assert(v.last().len() == 0);
        assert(v.filter(filled()) == v.drop_last().filter(filled()));
        assert(words(joined(ws, blank)) =~= ws);
    } else {
        let last = ws.last();
        assert(is_word(ws[ws.len() - 1]));
        if ws.len() == 1 {
            lemma_one_piece(last, cut);
            assert(seq![last].drop_last() =~= Seq::<Seq<char>>::empty());
            assert(words(joined(ws, blank)) =~= ws);
        } else {
            let front = ws.drop_last();
            assert forall|i: int| 0 <= i < front.len() implies is_word(#[trigger] front[i]) by {
                assert(front[i] == ws[i]);
            }
            lemma_words_of_joined(front);
            let before = joined(front, blank);
            assert(joined(ws, blank) =~= before.push(' ') + last);
            lemma_last_piece(before, ' ', last, cut);
            assert(pieces(before, cut).push(last).drop_last() =~= pieces(before, cut));
            assert(words(joined(ws, blank)) =~= front.push(last));
            assert(front.push(last) =~= ws);
        }
    }
}

proof fn lemma_pieces_not_cut(s: Seq<char>, cut: spec_fn(char) -> bool, i: int, j: int)
    requires
        0 <= i < pieces(s, cut).len(),
        0 <= j < pieces(s, cut)[i].len(),
    ensures
        !cut(pieces(s, cut)[i][j]),
    decreases s.len(),
{
    if s.len() > 0 {
        let before = pieces(s.drop_last(), cut);
        lemma_pieces_some(s.drop_last(), cut);
        if cut(s.last()) {
            if i < before.len() {
                lemma_pieces_not_cut(s.drop_last(), cut, i, j);
            }
        } else if i < before.len() - 1 {
            lemma_pieces_not_cut(s.drop_last(), cut, i, j);
        } else if j < before.last().len() {
            lemma_pieces_not_cut(s.drop_last(), cut, i, j);
        }
    }
}

proof fn lemma_filter_keeps(v: Seq<Seq<char>>, i: int)
    requires
        0 <= i < v.filter(filled()).len(),
    ensures
        v.filter(filled())[i].len() > 0,
        v.contains(v.filter(filled())[i]),
    decreases v.len(),
{
    reveal(Seq::filter);
    let x = v.filter(filled())[i];
    let front = v.drop_last();
    if v.len() > 0 {
        if i < front.filter(filled()).len() {
            lemma_filter_keeps(front, i);
            let k = choose|k: int| 0 <= k < front.len() && front[k] == x;
            assert(v[k] == x);
        } else {
            assert(v[v.len() - 1] == x);
        }
    }
}

/// Words are words.
pub proof fn lemma_words_are_words(s: Seq<char>)
    ensures
        forall|i: int| 0 <= i < words(s).len() ==> is_word(#[trigger] words(s)[i]),
{
    let cut = cut_at_white_space();
    let all = pieces(s, cut);
    assert forall|i: int| 0 <= i < words(s).len() implies is_word(#[trigger] words(s)[i]) by {
        lemma_filter_keeps(all, i);
        let k = choose|k: int| 0 <= k < all.len() && all[k] == words(s)[i];
        assert forall|j: int| 0 <= j < words(s)[i].len() implies !white_space(
            #[trigger] words(s)[i][j],
        ) by {
            lemma_pieces_not_cut(s, cut, k, j);
        }
    }
}

/// What is trimmed does not begin or end with white space.
pub proof fn lemma_trimmed_ends(s: Seq<char>)
    ensures
        trimmed(s).len() > 0 ==> !white_space(trimmed(s)[0]) && !white_space(trimmed(s).last()),
{
    lemma_trimmed_start(s);
    lemma_trimmed_end(trimmed_start(s));
}

proof fn lemma_trimmed_start(s: Seq<char>)
    ensures
        trimmed_start(s).len() > 0 ==> !white_space(trimmed_start(s)[0]),
    decreases s.len(),
{
    if s.len() > 0 {
        lemma_trimmed_start(s.drop_first());
    }
}

proof fn lemma_trimmed_end(s: Seq<char>)
    ensures
        trimmed_end(s).len() <= s.len(),
        trimmed_end(s).len() > 0 ==> trimmed_end(s)[0] == s[0] && !white_space(
            trimmed_end(s).last(),
        ),
    decreases s.len(),
{
    if s.len() > 0 {
        lemma_trimmed_end(s.drop_last());
    }
}

/// Trimming twice is trimming once.
pub proof fn lemma_trimmed_twice(s: Seq<char>)
    ensures
        trimmed(trimmed(s)) == trimmed(s),
{
    lemma_trimmed_ends(s);
}

proof fn lemma_lower_char(c: char)
    ensures
        lower_char(lower_char(c)) == lower_char(c),
        white_space(lower_char(c)) == white_space(c),
{
}

proof fn lemma_lowered_start(s: Seq<char>)
    ensures
        trimmed_start(lowered(s)) == lowered(trimmed_start(s)),
    decreases s.len(),
{
    if s.len() > 0 {
        lemma_lower_char(s[0]);
        lemma_lowered_start(s.drop_first());
        assert(lowered(s).drop_first() =~= lowered(s.drop_first()));
    }
}

proof fn lemma_lowered_end(s: Seq<char>)
    ensures
        trimmed_end(lowered(s)) == lowered(trimmed_end(s)),
    decreases s.len(),
{
    if s.len() > 0 {
        lemma_lower_char(s.last());
        lemma_lowered_end(s.drop_last());
        assert(lowered(s).drop_last() =~= lowered(s.drop_last()));
    }
}

/// Small letters and trimming do not depend on which comes first, and small letters stay.
pub proof fn lemma_lowered_trimmed(s: Seq<char>)
    ensures
        trimmed(lowered(s)) == lowered(trimmed(s)),
        lowered(lowered(s)) == lowered(s),
{
    lemma_lowered_start(s);
    lemma_lowered_end(trimmed_start(s));
    assert forall|i: int| 0 <= i < s.len() implies lowered(lowered(s))[i] == lowered(s)[i] by {
        lemma_lower_char(s[i]);
    }
    assert(lowered(lowered(s)) =~= lowered(s));
}

proof fn lemma_trimmed_start_part(s: Seq<char>)
    ensures
        forall|i: int| 0 <= i < trimmed_start(s).len() ==> s.contains(#[trigger] trimmed_start(s)[i]),
    decreases s.len(),
{
    if s.len() > 0 && white_space(s[0]) {
        lemma_trimmed_start_part(s.drop_first());
        assert forall|i: int| 0 <= i < trimmed_start(s).len() implies s.contains(
            #[trigger] trimmed_start(s)[i],
        ) by {
            let x = trimmed_start(s)[i];
            assert(s.drop_first().contains(trimmed_start(s.drop_first())[i]));
            let k = choose|k: int| 0 <= k < s.drop_first().len() && s.drop_first()[k] == x;
            assert(s[k + 1] == x);
        }
    }
}

proof fn lemma_trimmed_end_part(s: Seq<char>)
    ensures
        forall|i: int| 0 <= i < trimmed_end(s).len() ==> s.contains(#[trigger] trimmed_end(s)[i]),
    decreases s.len(),
{
    if s.len() > 0 && white_space(s.last()) {
        lemma_trimmed_end_part(s.drop_last());
        assert forall|i: int| 0 <= i < trimmed_end(s).len() implies s.contains(
            #[trigger] trimmed_end(s)[i],
        ) by {
            let x = trimmed_end(s)[i];
            assert(s.drop_last().contains(trimmed_end(s.drop_last())[i]));
            let k = choose|k: int| 0 <= k < s.drop_last().len() && s.drop_last()[k] == x;
            assert(s[k] == x);
        }
    }
}

/// Trimming adds nothing.
pub proof fn lemma_trimmed_part(s: Seq<char>)
    ensures
        forall|i: int| 0 <= i < trimmed(s).len() ==> s.contains(#[trigger] trimmed(s)[i]),
{
    lemma_trimmed_start_part(s);
    lemma_trimmed_end_part(trimmed_start(s));
    assert forall|i: int| 0 <= i < trimmed(s).len() implies s.contains(#[trigger] trimmed(s)[i]) by {
        let x = trimmed(s)[i];
        assert(trimmed_start(s).contains(trimmed_end(trimmed_start(s))[i]));
        let k = choose|k: int| 0 <= k < trimmed_start(s).len() && trimmed_start(s)[k] == x;
        assert(s.contains(trimmed_start(s)[k]));
    }
}

proof fn lemma_word_end(w: Seq<char>, k: int, end: Seq<char>)
    requires
        is_word(w) || w.len() == 0,
        0 <= k <= w.len(),
        is_word(end),
    ensures
        is_word(w.take(k) + end),
{
    let s = w.take(k) + end;
    assert forall|i: int| 0 <= i < s.len() implies !white_space(#[trigger] s[i]) by {
        if i < k {
            assert(s[i] == w[i]);
        } else {
            assert(s[i] == end[i - k]);
        }
    }
}

proof fn lemma_joined_push(ws: Seq<Seq<char>>, w: Seq<char>, separator: Seq<char>)
    ensures
        joined(ws.push(w), separator) == if ws.len() == 0 {
            w
        } else {
            joined(ws, separator) + separator + w
        },
{
    assert(ws.push(w).drop_last() =~= ws);
}

/// Words with one blank between neighbours, cut anywhere and ended with a word, are words with one
/// blank between neighbours.
pub proof fn lemma_cut_words(ws: Seq<Seq<char>>, n: int, end: Seq<char>) -> (cut: Seq<Seq<char>>)
    requires
        forall|i: int| 0 <= i < ws.len() ==> is_word(#[trigger] ws[i]),
        is_word(end),
        0 <= n <= joined(ws, seq![' ']).len(),
    ensures
        forall|i: int| 0 <= i < cut.len() ==> is_word(#[trigger] cut[i]),
        joined(cut, seq![' ']) == joined(ws, seq![' ']).take(n) + end,
    decreases ws.len(),
{
    let blank = seq![' '];
    let all = joined(ws, blank);
    if ws.len() == 0 {
        assert(all.take(n) + end =~= end);
        seq![end]
    } else {
        let front = ws.drop_last();
        let last = ws.last();
        assert(ws =~= front.push(last));
        assert(is_word(ws[ws.len() - 1]));
        lemma_joined_push(front, last, blank);
        assert forall|i: int| 0 <= i < front.len() implies is_word(#[trigger] front[i]) by {
            assert(front[i] == ws[i]);
        }
        let before = joined(front, blank);
        if ws.len() > 1 && n <= before.len() {
            let cut = lemma_cut_words(front, n, end);
            assert(all.take(n) =~= before.take(n));
            cut
        } else {
            let k = if ws.len() == 1 {
                n
            } else {
                n - before.len() - 1
            };
            let tail = last.take(k) + end;
            lemma_word_end(last, k, end);
            let cut = front.push(tail);
            lemma_joined_push(front, tail, blank);
            assert(joined(cut, blank) =~= all.take(n) + end);
            cut
        }
    }
}

/// The pieces of a text with the separator between them are the text.
pub proof fn lemma_split_joins(s: Seq<char>, separator: char)
    ensures
        joined(split_at_char(s, separator), seq![separator]) == s,
    decreases s.len(),
{
    let cut = cut_at(separator);
    let between = seq![separator];
    if s.len() == 0 {
        assert(s =~= Seq::empty());
    } else {
        let front = s.drop_last();
        let c = s.last();
        let before = pieces(front, cut);
        lemma_pieces_some(front, cut);
        lemma_split_joins(front, separator);
        assert(s =~= front.push(c));
        if c == separator {
            lemma_joined_push(before, Seq::empty(), between);
            assert(joined(before, between) + between + Seq::<char>::empty() =~= s);
        } else {
            let most = before.drop_last();
            let open = before.last();
            assert(before =~= most.push(open));
            lemma_joined_push(most, open, between);
            lemma_joined_push(most, open.push(c), between);
            if most.len() > 0 {
                assert(joined(most, between) + between + open.push(c) =~= s);
            }
        }
    }
}

/// Trailing white space is taken from what stands behind a character that is none.
pub proof fn lemma_trimmed_end_behind(front: Seq<char>, s: Seq<char>)
    requires
        front.len() > 0,
        !white_space(front.last()),
    ensures
        trimmed_end(front + s) == front + trimmed_end(s),
    decreases s.len(),
{
    let all = front + s;
    if s.len() == 0 {
        assert(all =~= front);
        assert(front + trimmed_end(s) =~= front);
    } else {
        assert(all.last() == s.last());
        assert(all.drop_last() =~= front + s.drop_last());
        lemma_trimmed_end_behind(front, s.drop_last());
    }
}

proof fn lemma_trimmed_start_push(s: Seq<char>, c: char)
    requires
        white_space(c),
    ensures
        trimmed_end(trimmed_start(s.push(c))) == trimmed_end(trimmed_start(s)),
    decreases s.len(),
{
    let all = s.push(c);
    if s.len() == 0 {
        assert(all.drop_first() =~= s);
        assert(trimmed_start(all) == trimmed_start(s));
    } else if white_space(s[0]) {
        assert(all.drop_first() =~= s.drop_first().push(c));
        lemma_trimmed_start_push(s.drop_first(), c);
    } else {
        assert(all.drop_last() =~= s);
    }
}

/// Taking trailing white space away first does not change what is trimmed.
pub proof fn lemma_trimmed_of_end(s: Seq<char>)
    ensures
        trimmed(trimmed_end(s)) == trimmed(s),
    decreases s.len(),
{
    if s.len() > 0 && white_space(s.last()) {
        lemma_trimmed_of_end(s.drop_last());
        lemma_trimmed_start_push(s.drop_last(), s.last());
        assert(s.drop_last().push(s.last()) =~= s);
    }
}

/// The first index is that of an occurrence before which there is none, or the length.
pub proof fn lemma_first_index(s: Seq<char>, c: char)
    ensures
        0 <= first_index(s, c) <= s.len(),
        first_index(s, c) < s.len() ==> s[first_index(s, c)] == c,
        forall|i: int| 0 <= i < first_index(s, c) ==> #[trigger] s[i] != c,
    decreases s.len(),
{
    if s.len() > 0 && s[0] != c {
        let tail = s.drop_first();
        lemma_first_index(tail, c);
        assert forall|i: int| 0 <= i < first_index(s, c) implies #[trigger] s[i] != c by {
            if i > 0 {
                assert(tail[i - 1] == s[i]);
            }
        }
    }
}

/// Among ASCII characters the blank and those from the tab to the carriage return are white space.
pub proof fn lemma_ascii_white_space(c: char)
    requires
        c as u32 <= 127,
    ensures
        white_space(c) <==> (c == ' ' || '\t' <= c <= '\r'),
{
}

/// Capitals become small: what lies between `A` and `Z` moves to where it stands between `a` and
/// `z`, and all else stays.
pub proof fn lemma_lowered(s: Seq<char>, i: int)
    requires
        0 <= i < s.len(),
    ensures
        lowered(s).len() == s.len(),
        'A' <= s[i] <= 'Z' ==> lowered(s)[i] as u32 - 'a' as u32 == s[i] as u32 - 'A' as u32,
        !('A' <= s[i] <= 'Z') ==> lowered(s)[i] == s[i],
{
}

/// White space before a text that does not begin with any is what is taken away before it.
pub proof fn lemma_trimmed_start_white(before: Seq<char>, s: Seq<char>)
    requires
        forall|i: int| 0 <= i < before.len() ==> white_space(#[trigger] before[i]),
        s.len() > 0 ==> !white_space(s[0]),
    ensures
        trimmed_start(before + s) == s,
    decreases before.len(),
{
    let all = before + s;
    if before.len() == 0 {
        assert(all =~= s);
    } else {
        assert(all[0] == before[0]);
        assert(all.drop_first() =~= before.drop_first() + s);
        lemma_trimmed_start_white(before.drop_first(), s);
    }
}

proof fn lemma_trimmed_end_white(s: Seq<char>, after: Seq<char>)
    requires
        forall|i: int| 0 <= i < after.len() ==> white_space(#[trigger] after[i]),
        s.len() > 0 ==> !white_space(s.last()),
    ensures
        trimmed_end(s + after) == s,
    decreases after.len(),
{
    let all = s + after;
    if after.len() == 0 {
        assert(all =~= s);
    } else {
        assert(all.last() == after.last());
        assert(all.drop_last() =~= s + after.drop_last());
        lemma_trimmed_end_white(s, after.drop_last());
    }
}

/// A text that neither begins nor ends with white space is what is left of it once the white space
/// around it is taken away.
pub proof fn lemma_trimmed_between(before: Seq<char>, s: Seq<char>, after: Seq<char>)
    requires
        forall|i: int| 0 <= i < before.len() ==> white_space(#[trigger] before[i]),
        forall|i: int| 0 <= i < after.len() ==> white_space(#[trigger] after[i]),
        s.len() > 0,
        !white_space(s[0]),
        !white_space(s.last()),
    ensures
        trimmed(before + s + after) == s,
{
    assert(before + s + after =~= before + (s + after));
    lemma_trimmed_start_white(before, s + after);
    lemma_trimmed_end_white(s, after);
}

/// What stands before a cut and what stands behind it are cut each by itself.
pub proof fn lemma_pieces_apart(s: Seq<char>, c: char, t: Seq<char>, cut: spec_fn(char) -> bool)
    requires
        cut(c),
    ensures
        pieces(s.push(c) + t, cut) == pieces(s, cut) + pieces(t, cut),
    decreases t.len(),
{
    let all = s.push(c) + t;
    lemma_pieces_some(s, cut);
    lemma_pieces_some(t, cut);
    if t.len() == 0 {
        assert(all =~= s.push(c));
        assert(s.push(c).drop_last() =~= s);
        assert(pieces(s, cut) + pieces(t, cut) =~= pieces(s, cut).push(Seq::empty()));
    } else {
        let front = t.drop_last();
        lemma_pieces_apart(s, c, front, cut);
        lemma_pieces_some(front, cut);
        assert(all.drop_last() =~= s.push(c) + front);
        assert(all.last() == t.last());
        let before = pieces(s, cut) + pieces(front, cut);
        let more = pieces(front, cut);
        assert(before.last() == more.last());
        assert(before.drop_last() =~= pieces(s, cut) + more.drop_last());
        assert(pieces(all, cut) =~= pieces(s, cut) + pieces(t, cut));
    }
}

/// The words before white space and those behind it are the words.
pub proof fn lemma_words_apart(s: Seq<char>, c: char, t: Seq<char>)
    requires
        white_space(c),
    ensures
        words(s.push(c) + t) == words(s) + words(t),
{
    let cut = cut_at_white_space();
    lemma_pieces_apart(s, c, t, cut);
    Seq::<Seq<char>>::filter_distributes_over_add(pieces(s, cut), pieces(t, cut), filled());
}

/// A word is one word, and nothing is none.
pub proof fn lemma_one_word(w: Seq<char>)
    ensures
        is_word(w) ==> words(w) == seq![w],
        words(Seq::empty()) == Seq::<Seq<char>>::empty(),
{
    reveal(Seq::filter);
    let cut = cut_at_white_space();
    let none = seq![Seq::<char>::empty()];
    assert(none.drop_last() =~= Seq::empty());
    assert(none.drop_last().filter(filled()) =~= Seq::empty());
    assert(!filled()(none.last()));
    if is_word(w) {
        assert forall|i: int| 0 <= i < w.len() implies !cut(#[trigger] w[i]) by {}
        lemma_one_piece(w, cut);
        assert(seq![w].drop_last() =~= Seq::empty());
        assert(seq![w].drop_last().filter(filled()) =~= Seq::empty());
        assert(filled()(seq![w].last()));
        assert(words(w) =~= seq![w]);
    }
}

/// What stands behind the last separator is the last piece.
pub proof fn lemma_split_longer(s: Seq<char>, separator: char, t: Seq<char>)
    requires
        !t.contains(separator),
    ensures
        split_at_char(s.push(separator) + t, separator) == split_at_char(s, separator).push(t),
        split_at_char(t, separator) == seq![t],
{
    let cut = cut_at(separator);
    assert forall|i: int| 0 <= i < t.len() implies !cut(#[trigger] t[i]) by {
        assert(t.contains(t[i]));
    }
    lemma_last_piece(s, separator, t, cut);
    lemma_one_piece(t, cut);
}

/// A part more comes behind the others and a separator.
pub proof fn lemma_joined_longer(parts: Seq<Seq<char>>, part: Seq<char>, separator: Seq<char>)
    ensures
        joined(Seq::empty(), separator) == Seq::<char>::empty(),
        joined(seq![part], separator) == part,
        parts.len() > 0 ==> joined(parts.push(part), separator) == joined(parts, separator)
            + separator + part,
{
    assert(parts.push(part).drop_last() =~= parts);
}

/// The characters of strings are those of each, in their order.
pub proof fn lemma_texts(v: Seq<String>, i: int)
    requires
        0 <= i < v.len(),
    ensures
        texts(v).len() == v.len(),
        texts(v)[i] == v[i]@,
{
}

} // verus!
