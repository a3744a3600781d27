use vstd::prelude::*;
use vstd::string::StringSliceAdditionalSpecFns;
use vstd::string::StrSliceExecFns;
use vstd::string::StringExecFns;

verus! {

/// Tells whether two strings hold the same characters.
pub fn same_text(a: &str, b: &str) -> (same: bool)
    ensures
        same == (a@ == b@),
{
    let x = a.as_bytes();
    let y = b.as_bytes();
    proof {
        vstd::utf8::encode_utf8_decode_utf8(a@);
        vstd::utf8::encode_utf8_decode_utf8(b@);
    }
    if x.len() != y.len() {
        return false;
    }
    let mut i: usize = 0;
    while i < x.len()
        invariant
            i <= x.len(),
            x.len() == y.len(),
            x@ == a.spec_bytes(),
            y@ == b.spec_bytes(),
            forall|j: int| 0 <= j < i ==> x@[j] == y@[j],
        decreases x.len() - i,
    {
        if x[i] != y[i] {
            return false;
        }
        i += 1;
    }
    assert(x@ =~= y@);
    true
}

/// The characters of each string of a list.
pub open spec fn texts(strings: Seq<String>) -> Seq<Seq<char>> {
    Seq::new(strings.len(), |i: int| strings[i]@)
}

/// The pieces of `text` between the occurrences of `separator`: one piece
/// more than there are separators, in order, empty pieces included.
pub open spec fn split(text: Seq<char>, separator: char) -> Seq<Seq<char>>
    decreases text.len(),
{
    if text.len() == 0 {
        seq![Seq::empty()]
    } else {
        let before = split(text.drop_last(), separator);
        if text.last() == separator {
            before.push(Seq::empty())
        } else {
            before.drop_last().push(before.last().push(text.last()))
        }
    }
}

/// A text has at least one piece.
pub proof fn lemma_split_len(text: Seq<char>, separator: char)
    ensures
        split(text, separator).len() >= 1,
    decreases text.len(),
{
    if text.len() > 0 {
        lemma_split_len(text.drop_last(), separator);
    }
}

/// Splits the characters of `text` from index `from` on at each `separator`.
pub fn split_from(text: &str, from: usize, separator: char) -> (pieces: Vec<String>)
    requires
        from <= text@.len(),
    ensures
        texts(pieces@) == split(text@.skip(from as int), separator),
        pieces.len() >= 1,
{
    let len = text.unicode_len();
    let ghost tail = text@.skip(from as int);
    let mut pieces: Vec<String> = Vec::new();
    let mut start: usize = from;
    let mut i: usize = from;
    assert(tail.take(0) =~= Seq::empty());
    assert(text@.subrange(from as int, from as int) =~= Seq::empty());
    assert(texts(pieces@).push(Seq::empty()) =~= seq![Seq::<char>::empty()]);
    while i < len
        invariant
            from <= start <= i <= len,
            len == text@.len(),
            tail == text@.skip(from as int),
            split(tail.take(i - from), separator) == texts(pieces@).push(
                text@.subrange(start as int, i as int),
            ),
        decreases len - i,
    {
        let c = text.get_char(i);
        let ghost so_far = tail.take(i - from);
        let ghost next = tail.take(i + 1 - from);
        proof {
            assert(next.drop_last() =~= so_far);
            assert(next.last() == c);
        }
        if c == separator {
            let piece = text.substring_char(start, i);
            pieces.push(String::from_str(piece));
            start = i + 1;
            proof {
                assert(text@.subrange(start as int, start as int) =~= Seq::empty());
                assert(texts(pieces@) =~= split(so_far, separator));
            }
        } else {
            proof {
                assert(text@.subrange(start as int, i + 1) =~= text@.subrange(
                    start as int,
                    i as int,
                ).push(c));
                assert(split(so_far, separator).drop_last() =~= texts(pieces@));
            }
        }
        i += 1;
    }
    assert(tail.take(len - from) =~= tail);
    let piece = text.substring_char(start, len);
    pieces.push(String::from_str(piece));
    assert(texts(pieces@) =~= split(tail, separator));
    pieces
}

/// The characters with the Unicode property `White_Space`.
pub open spec fn is_white_space(c: char) -> bool {
    let code = c as u32;
    ||| 0x09 <= code <= 0x0d
    ||| code == 0x20
    ||| code == 0x85
    ||| code == 0xa0
    ||| code == 0x1680
    ||| 0x2000 <= code <= 0x200a
    ||| code == 0x2028
    ||| code == 0x2029
    ||| code == 0x202f
    ||| code == 0x205f
    ||| code == 0x3000
}

/// Tells whether the character has the Unicode property `White_Space`.
pub fn white_space(c: char) -> (white: bool)
    ensures
        white == is_white_space(c),
{
    let code = c as u32;
    (0x09 <= code && code <= 0x0d) || code == 0x20 || code == 0x85 || code == 0xa0 || code
        == 0x1680 || (0x2000 <= code && code <= 0x200a) || code == 0x2028 || code == 0x2029
        || code == 0x202f || code == 0x205f || code == 0x3000
}

/// The text without the white space at its end.
pub open spec fn trimmed_end(text: Seq<char>) -> Seq<char>
    decreases text.len(),
{
    if text.len() > 0 && is_white_space(text.last()) {
        trimmed_end(text.drop_last())
    } else {
        text
    }
}

/// The text without the white space at its end.
pub fn trim_end(text: &str) -> (trimmed: &str)
    ensures
        trimmed@ == trimmed_end(text@),
{
    let mut end = text.unicode_len();
    assert(text@.take(end as int) =~= text@);
    while end > 0 && white_space(text.get_char(end - 1))
        invariant
            end <= text@.len(),
            trimmed_end(text@) == trimmed_end(text@.take(end as int)),
        decreases end,
    {
        assert(text@.take(end as int).drop_last() =~= text@.take(end - 1));
        end -= 1;
    }
    assert(text@.subrange(0, end as int) =~= text@.take(end as int));
    text.substring_char(0, end)
}

/// The index of the last `wanted` in `text`, or -1 where there is none.
pub open spec fn last_index(text: Seq<char>, wanted: char) -> int
    decreases text.len(),
{
    if text.len() == 0 {
        -1
    } else if text.last() == wanted {
        text.len() - 1
    } else {
        last_index(text.drop_last(), wanted)
    }
}

/// The last index lies in the text; nothing after it is the wanted character.
pub proof fn lemma_last_index(text: Seq<char>, wanted: char)
    ensures
        -1 <= last_index(text, wanted) < text.len(),
        last_index(text, wanted) >= 0 ==> text[last_index(text, wanted)] == wanted,
    decreases text.len(),
{
    if text.len() > 0 && text.last() != wanted {
        lemma_last_index(text.drop_last(), wanted);
    }
}

/// Finds the last `wanted` among the first `end` characters of `text`.
fn find_last(text: &str, end: usize, wanted: char) -> (found: Option<usize>)
    requires
        end <= text@.len(),
    ensures
        match found {
            Some(index) => index as int == last_index(text@.take(end as int), wanted),
            None => last_index(text@.take(end as int), wanted) == -1,
        },
{
    let mut at = end;
    while at > 0
        invariant
            at <= end <= text@.len(),
            last_index(text@.take(end as int), wanted) == last_index(text@.take(at as int), wanted),
        decreases at,
    {
        let c = text.get_char(at - 1);
        assert(text@.take(at as int).last() == c);
        if c == wanted {
            return Some(at - 1);
        }
        assert(text@.take(at as int).drop_last() =~= text@.take(at - 1));
        at -= 1;
    }
    None
}

/// The text without the `trailing` characters at its end.
pub open spec fn without_trailing(text: Seq<char>, trailing: char) -> Seq<char>
    decreases text.len(),
{
    if text.len() > 0 && text.last() == trailing {
        without_trailing(text.drop_last(), trailing)
    } else {
        text
    }
}

/// The length of the text without the `trailing` characters at its end.
fn trimmed_len(text: &str, trailing: char) -> (len: usize)
    ensures
        len <= text@.len(),
        text@.take(len as int) == without_trailing(text@, trailing),
{
    let mut end = text.unicode_len();
    assert(text@.take(end as int) =~= text@);
    while end > 0 && text.get_char(end - 1) == trailing
        invariant
            end <= text@.len(),
            without_trailing(text@, trailing) == without_trailing(text@.take(end as int), trailing),
        decreases end,
    {
        assert(text@.take(end as int).drop_last() =~= text@.take(end - 1));
        end -= 1;
    }
    end
}

/// The text that the bytes hold as UTF-8, with the replacement character
/// in the place of each sequence that is no UTF-8.
pub uninterp spec fn lossy(bytes: Seq<u8>) -> Seq<char>;

/// Calls `String::from_utf8_lossy` and takes the result as a `String`.
#[verifier::external_body]
pub(crate) fn from_utf8_lossy(bytes: &[u8]) -> (text: String)
    ensures
        text@ == lossy(bytes@),
{
    String::from_utf8_lossy(bytes).into_owned()
}

/// The path with the extension of its file name forced to `extension`.
/// Slashes at the end are dropped first. The file name is what follows the
/// last slash; its extension starts at its last dot, unless that dot is its
/// first character. `None` where no file name is left.
pub open spec fn with_extension(path: Seq<char>, extension: Seq<char>) -> Option<Seq<char>> {
    let trimmed = without_trailing(path, '/');
    let name_at = last_index(trimmed, '/') + 1;
    let dot = last_index(trimmed, '.');
    if trimmed.len() == 0 {
        None
    } else if dot > name_at {
        Some(trimmed.take(dot) + seq!['.'] + extension)
    } else {
        Some(trimmed + seq!['.'] + extension)
    }
}

/// Forces the extension of the file name of a path.
pub fn force_extension(path: &str, extension: &str) -> (forced: Option<String>)
    ensures
        match with_extension(path@, extension@) {
            Some(text) => forced matches Some(f) && f@ == text,
            None => forced is None,
        },
{
    let end = trimmed_len(path, '/');
    if end == 0 {
        return None;
    }
    let ghost trimmed = path@.take(end as int);
    proof {
        lemma_last_index(trimmed, '/');
    }
    let name_at: usize = match find_last(path, end, '/') {
        Some(slash) => slash + 1,
        None => 0,
    };
    let stem_end: usize = match find_last(path, end, '.') {
        Some(dot) => if dot > name_at {
            dot
        } else {
            end
        },
        None => end,
    };
    proof {
        lemma_last_index(trimmed, '.');
        assert(path@.subrange(0, stem_end as int) =~= trimmed.take(stem_end as int));
        assert(trimmed.take(end as int) =~= trimmed);
        reveal_strlit(".");
        assert("."@ =~= seq!['.']);
    }
    let mut forced = String::from_str(path.substring_char(0, stem_end));
    forced.append(".");
    forced.append(extension);
    Some(forced)
}

/// The characters of a text, one by one.
pub fn chars_of(text: &str) -> (chars: Vec<char>)
    ensures
        chars@ == text@,
{
    let len = text.unicode_len();
    let mut chars: Vec<char> = Vec::new();
    let mut i: usize = 0;
    while i < len
        invariant
            i <= len,
            len == text@.len(),
            chars@ == text@.take(i as int),
        decreases len - i,
    {
        chars.push(text.get_char(i));
        assert(chars@ =~= text@.take(i + 1));
        i += 1;
    }
    assert(text@.take(len as int) =~= text@);
    chars
}

/// `part` stands in `text` at index `at`.
pub open spec fn occurs_at(part: Seq<char>, text: Seq<char>, at: int) -> bool {
    0 <= at && at + part.len() <= text.len() && text.subrange(at, at + part.len()) == part
}

/// `part` stands somewhere in `text`.
pub open spec fn occurs_in(part: Seq<char>, text: Seq<char>) -> bool {
    exists|at: int| occurs_at(part, text, at)
}

/// Tells whether `part` stands in `text` at index `at`.
fn matches_at(part: &Vec<char>, text: &Vec<char>, at: usize) -> (yes: bool)
    requires
        at + part.len() <= text.len(),
    ensures
        yes == occurs_at(part@, text@, at as int),
{
    let mut k: usize = 0;
    while k < part.len()
        invariant
            k <= part.len(),
            at + part.len() <= text.len(),
            forall|j: int| 0 <= j < k ==> text[at + j] == part[j],
        decreases part.len() - k,
    {
        if text[at + k] != part[k] {
            assert(text@.subrange(at as int, at + part.len())[k as int] != part@[k as int]);
            return false;
        }
        k += 1;
    }
    assert(text@.subrange(at as int, at + part.len()) =~= part@);
    true
}

/// Tells whether `part` stands somewhere in `text`.
pub fn contains(text: &str, part: &str) -> (yes: bool)
    ensures
        yes == occurs_in(part@, text@),
{
    let hay = chars_of(text);
    let needle = chars_of(part);
    if needle.len() > hay.len() {
        return false;
    }
    let last = hay.len() - needle.len();
    let mut at: usize = 0;
    while at < last
        invariant
            at <= last,
            last == hay.len() - needle.len(),
            needle.len() <= hay.len(),
            hay@ == text@,
            needle@ == part@,
            forall|j: int| 0 <= j < at ==> !occurs_at(part@, text@, j),
        decreases last - at,
    {
        if matches_at(&needle, &hay, at) {
            return true;
        }
        at += 1;
    }
    matches_at(&needle, &hay, last)
}

/// A list without duplicates whose texts all stand in another list is no
/// longer than that list.
pub proof fn lemma_distinct_within(part: Seq<Seq<char>>, whole: Seq<Seq<char>>)
    requires
        forall|i: int, j: int| 0 <= i < j < part.len() ==> part[i] != part[j],
        forall|i: int| 0 <= i < part.len() ==> whole.contains(#[trigger] part[i]),
    ensures
        part.len() <= whole.len(),
    decreases part.len(),
{
    if part.len() > 0 {
        let last = part.last();
        let at = choose|k: int| 0 <= k < whole.len() && whole[k] == last;
        let rest = whole.remove(at);
        let shorter = part.drop_last();
        assert forall|i: int| 0 <= i < shorter.len() implies rest.contains(#[trigger] shorter[i]) by {
            assert(shorter[i] == part[i]);
            let k = choose|k: int| 0 <= k < whole.len() && whole[k] == part[i];
            assert(part[i] != last);
            if k < at {
                assert(rest[k] == whole[k]);
            } else {
                assert(rest[k - 1] == whole[k]);
            }
        }
        assert forall|i: int, j: int| 0 <= i < j < shorter.len() implies shorter[i] != shorter[j] by {
            assert(shorter[i] == part[i] && shorter[j] == part[j]);
        }
        lemma_distinct_within(shorter, rest);
    }
}

/// The text without its first character, where that is `leading`.
pub open spec fn without_leading(text: Seq<char>, leading: char) -> Seq<char> {
    if text.len() > 0 && text[0] == leading {
        text.skip(1)
    } else {
        text
    }
}

/// The text without its first character, where that is `leading`.
pub fn strip_leading(text: &str, leading: char) -> (stripped: &str)
    ensures
        stripped@ == without_leading(text@, leading),
{
    let len = text.unicode_len();
    if len > 0 && text.get_char(0) == leading {
        assert(text@.subrange(1, len as int) =~= text@.skip(1));
        text.substring_char(1, len)
    } else {
        text
    }
}

} // verus!
