use vstd::prelude::*;

use crate::text::{
    trim_end, chars_end_with, chars_of, chars_start_with, ends_with, is_white_space, split_by, split_chars, starts_with,
    str_eq, string_from, sub_chars,
};

verus! {

/// A lowercase hexadecimal digit.
pub open spec fn hex_digit(d: int) -> char {
    if d < 10 {
        ('0' as int + d) as char
    } else {
        ('a' as int + d - 10) as char
    }
}

/// Each byte as two lowercase hexadecimal digits, high nibble first.
pub open spec fn hex_of(bytes: Seq<u8>) -> Seq<char>
    decreases bytes.len(),
{
    if bytes.len() == 0 {
        Seq::empty()
    } else {
        hex_of(bytes.drop_last()) + seq![hex_digit(bytes.last() as int / 16), hex_digit(bytes.last() as int % 16)]
    }
}

/// `hex::encode`: the bytes as lowercase hexadecimal, two digits per byte.
#[verifier::external_body]
fn hex_encode(bytes: &[u8]) -> (r: String)
    ensures
        r@ == hex_of(bytes@),
{
    hex::encode(bytes)
}

/// The SHA-1 digest of a byte string.
pub uninterp spec fn sha1_of(bytes: Seq<u8>) -> Seq<u8>;

/// `sha1::Sha1::digest`: the SHA-1 digest of the bytes, twenty bytes long.
#[verifier::external_body]
fn sha1_digest(bytes: &[u8]) -> (r: Vec<u8>)
    ensures
        r@ == sha1_of(bytes@),
        r@.len() == 20,
{
    <sha1::Sha1 as sha1::Digest>::digest(bytes).to_vec()
}

/// The SHA-1 digest of a jar as lowercase hexadecimal.
pub fn jar_sha1_hex(jar: &[u8]) -> (r: String)
    ensures
        r@ == hex_of(sha1_of(jar@)),
{
    let digest = sha1_digest(jar);
    hex_encode(digest.as_slice())
}

/// Whether a downloaded jar is the one the version manifest announces: its
/// SHA-1 digest, as lowercase hexadecimal, is the expected text.
pub fn jar_checksum_matches(jar: &[u8], expected: &str) -> (r: bool)
    ensures
        r == (hex_of(sha1_of(jar@)) == expected@),
{
    let digest = sha1_digest(jar);
    checksum_matches(digest.as_slice(), expected)
}

/// Whether a downloaded jar's SHA-1 digest is the one the version manifest
/// announces (as lowercase hexadecimal).
pub fn checksum_matches(digest: &[u8], expected: &str) -> (r: bool)
    ensures
        r == (hex_of(digest@) == expected@),
{
    let text = hex_encode(digest);
    str_eq(text.as_str(), expected)
}

/// The version a download is for: the requested one, else the latest
/// release; and the index of its manifest entry, if it has one.
pub fn pick_version(ids: &[String], latest_release: &str, requested: Option<&str>) -> (r: (String, Option<usize>))
    ensures
        r.0@ == match requested {
            Some(v) => v@,
            None => latest_release@,
        },
        match r.1 {
            Some(i) => i < ids@.len() && ids@[i as int]@ == r.0@ && forall|j: int| 0 <= j < i ==> ids@[j]@ != r.0@,
            None => forall|j: int| 0 <= j < ids@.len() ==> ids@[j]@ != r.0@,
        },
{
    let id = match requested {
        Some(v) => string_from(&chars_of(v)),
        None => string_from(&chars_of(latest_release)),
    };
    let mut i: usize = 0;
    while i < ids.len()
        invariant
            i <= ids@.len(),
            id@ == match requested {
                Some(v) => v@,
                None => latest_release@,
            },
            forall|j: int| 0 <= j < i ==> ids@[j]@ != id@,
        decreases ids@.len() - i,
    {
        if str_eq(ids[i].as_str(), id.as_str()) {
            return (id, Some(i));
        }
        i += 1;
    }
    (id, None)
}

/// The first line of a text, as `str::lines` gives it: up to the first
/// line feed, without a carriage return right before that line feed; none
/// for empty text.
pub open spec fn first_line(t: Seq<char>) -> Option<Seq<char>> {
    if t.len() == 0 {
        None
    } else {
        let line = split_by(t, '\n')[0];
        Some(
            if split_by(t, '\n').len() > 1 && line.len() > 0 && line.last() == '\r' {
                line.drop_last()
            } else {
                line
            },
        )
    }
}

/// The last word of a line, as `split_whitespace().last()` gives it.
pub open spec fn last_word(line: Seq<char>) -> Option<Seq<char>> {
    let t = trim_end(line);
    if t.len() == 0 {
        None
    } else {
        Some(word_tail(t))
    }
}

/// The characters after the last white space.
pub open spec fn word_tail(t: Seq<char>) -> Seq<char>
    decreases t.len(),
{
    if t.len() == 0 || is_white_space(t.last()) {
        Seq::empty()
    } else {
        word_tail(t.drop_last()).push(t.last())
    }
}

proof fn lemma_word_tail(l: Seq<char>, start: int, end: int)
    requires
        0 <= start <= end <= l.len(),
        forall|k: int| start <= k < end ==> !is_white_space(#[trigger] l[k]),
        start == 0 || is_white_space(l[start - 1]),
    ensures
        word_tail(l.subrange(0, end)) == l.subrange(start, end),
    decreases end - start,
{
    if end > start {
        lemma_word_tail(l, start, end - 1);
        assert(l.subrange(0, end).drop_last() == l.subrange(0, end - 1));
        assert(l.subrange(start, end) == l.subrange(start, end - 1).push(l[end - 1]));
    } else {
        if start > 0 {
            assert(l.subrange(0, end).last() == l[start - 1]);
        }
        assert(l.subrange(start, end) =~= Seq::<char>::empty());
    }
}

/// Where a bundler jar keeps the server jar: the last word of the first line
/// of its `META-INF/versions.list`, under `META-INF/versions/`.
pub fn bundled_jar_entry(versions_list: &str) -> (r: Option<String>)
    ensures
        match r {
            Some(p) => match first_line(versions_list@) {
                Some(line) => match last_word(line) {
                    Some(w) => p@ == "META-INF/versions/"@ + w,
                    None => false,
                },
                None => false,
            },
            None => match first_line(versions_list@) {
                Some(line) => last_word(line) is None,
                None => true,
            },
        },
{
    let text = chars_of(versions_list);
    if text.len() == 0 {
        return None;
    }
    let lines = split_chars(&text, '\n');
    proof {
        crate::text::lemma_split_nonempty(text@, '\n');
    }
    let raw_line = &lines[0];
    let line = if lines.len() > 1 && raw_line.len() > 0 && raw_line[raw_line.len() - 1] == '\r' {
        sub_chars(raw_line, 0, raw_line.len() - 1)
    } else {
        sub_chars(raw_line, 0, raw_line.len())
    };
    proof {
        assert(raw_line@.subrange(0, raw_line@.len() as int) == raw_line@);
        assert(raw_line@.len() > 0 ==> raw_line@.subrange(0, raw_line@.len() - 1) == raw_line@.drop_last());
    }
    let mut end = line.len();
    proof {
        assert(line@.subrange(0, line@.len() as int) == line@);
    }
    while end > 0 && crate::text::check_white_space(line[end - 1])
        invariant
            end <= line@.len(),
            trim_end(line@) == trim_end(line@.subrange(0, end as int)),
        decreases end,
    {
        assert(line@.subrange(0, end as int).drop_last() == line@.subrange(0, end - 1));
        end -= 1;
    }
    assert(trim_end(line@.subrange(0, end as int)) == line@.subrange(0, end as int));
    if end == 0 {
        return None;
    }
    let mut start = end - 1;
    while start > 0 && !crate::text::check_white_space(line[start - 1])
        invariant
            start < end <= line@.len(),
            end > 0,
            !is_white_space(line@[end - 1]),
            forall|k: int| start <= k < end ==> !is_white_space(#[trigger] line@[k]),
        decreases start,
    {
        start -= 1;
    }
    let word = sub_chars(&line, start, end);
    proof {
        lemma_word_tail(line@, start as int, end as int);
    }
    let prefix = chars_of("META-INF/versions/");
    Some(string_from(&crate::text::concat_chars(&prefix, &word)))
}

/// A block tag file in a datapack: where the vanilla tags live in 1.21 and
/// later, and before.
pub open spec fn tag_dirs() -> Seq<Seq<char>> {
    seq!["data/minecraft/tags/block/"@, "data/minecraft/tags/blocks/"@]
}

/// The path of a block tag file relative to its tag directory, for an
/// archive entry that is one: a file (not ending in `/`) under either tag
/// directory, the first that matches.
pub open spec fn tag_file(name: Seq<char>) -> Option<Seq<char>> {
    if ends_with(name, "/"@) {
        None
    } else if starts_with(name, tag_dirs()[0]) {
        Some(name.skip(tag_dirs()[0].len() as int))
    } else if starts_with(name, tag_dirs()[1]) {
        Some(name.skip(tag_dirs()[1].len() as int))
    } else {
        None
    }
}

/// Whether an archive entry is a block tag file, and its path relative to
/// its tag directory.
pub fn tag_file_path(name: &str) -> (r: Option<String>)
    ensures
        match r {
            Some(p) => tag_file(name@) == Some(p@),
            None => tag_file(name@) is None,
        },
{
    let v = chars_of(name);
    if chars_end_with(&v, &chars_of("/")) {
        return None;
    }
    let first = chars_of("data/minecraft/tags/block/");
    let second = chars_of("data/minecraft/tags/blocks/");
    if chars_start_with(&v, &first) {
        let rest = sub_chars(&v, first.len(), v.len());
        assert(rest@ == v@.skip(first@.len() as int));
        return Some(string_from(&rest));
    }
    if chars_start_with(&v, &second) {
        let rest = sub_chars(&v, second.len(), v.len());
        assert(rest@ == v@.skip(second@.len() as int));
        return Some(string_from(&rest));
    }
    None
}

} // verus!
