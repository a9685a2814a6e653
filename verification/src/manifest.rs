//! Byte-level scanning of a manifest text.
use vstd::prelude::*;
use vstd::string::StringSliceAdditionalSpecFns;
use vstd::utf8::*;

verus! {

/// `\n`
pub const NEWLINE: u8 = 10;
/// `.`
pub const DOT: u8 = 46;
/// `[`
pub const OPEN_BRACKET: u8 = 91;
/// `]`
pub const CLOSE_BRACKET: u8 = 93;
/// ` `
pub const SPACE: u8 = 32;
/// `=`
pub const EQUALS: u8 = 61;
/// `"`
pub const QUOTE: u8 = 34;

/// `pat` occurs in `data` starting at `offset`.
pub open spec fn matches_at(data: Seq<u8>, offset: int, pat: Seq<u8>) -> bool {
    &&& 0 <= offset
    &&& offset + pat.len() <= data.len()
    &&& data.subrange(offset, offset + pat.len()) == pat
}

/// Returns `true` if the bytes in `data` starting at `offset` exactly match
/// `to_search`; `false` when they would run past the end of `data`.
pub fn bytes_eq_at(data: &[u8], offset: usize, to_search: &[u8]) -> (res: bool)
    ensures
        res == matches_at(data@, offset as int, to_search@),
{
    if offset > data.len() || to_search.len() > data.len() - offset {
        return false;
    }
    let mut i: usize = 0;
    while i < to_search.len()
        invariant
            i <= to_search@.len(),
            offset + to_search@.len() <= data.len(),
            forall|j: int| 0 <= j < i ==> data@[offset + j] == to_search@[j],
        decreases to_search@.len() - i,
    {
        if data[offset + i] != to_search[i] {
            return false;
        }
        i += 1;
    }
    assert(data@.subrange(offset as int, offset + to_search@.len()) =~= to_search@);
    true
}

/// A line of `data` begins at `i`.
pub open spec fn is_line_start(data: Seq<u8>, i: int) -> bool {
    i == 0 || (0 < i <= data.len() && data[i - 1] == NEWLINE)
}

/// The section header `{prefix}{os}.{arch}]` as bytes.
pub open spec fn section_header(prefix: Seq<u8>, os: Seq<u8>, arch: Seq<u8>) -> Seq<u8> {
    prefix + os + seq![DOT] + arch + seq![CLOSE_BRACKET]
}

/// A line of `data` begins at `i` and starts with the section header for `os` and `arch`.
pub open spec fn is_header_line(
    data: Seq<u8>,
    i: int,
    prefix: Seq<u8>,
    os: Seq<u8>,
    arch: Seq<u8>,
) -> bool {
    is_line_start(data, i) && matches_at(data, i, section_header(prefix, os, arch))
}

/// A match of `x + y` is a match of `x` followed by a match of `y`.
pub proof fn lemma_matches_concat(data: Seq<u8>, i: int, x: Seq<u8>, y: Seq<u8>)
    ensures
        matches_at(data, i, x + y) == (matches_at(data, i, x) && matches_at(data, i + x.len(), y)),
{
    if matches_at(data, i, x + y) {
        assert(data.subrange(i, i + x.len()) =~= (x + y).subrange(0, x.len() as int));
        assert(data.subrange(i + x.len(), i + x.len() + y.len()) =~= (x + y).subrange(
            x.len() as int,
            (x.len() + y.len()) as int,
        ));
        assert((x + y).subrange(0, x.len() as int) =~= x);
        assert((x + y).subrange(x.len() as int, (x.len() + y.len()) as int) =~= y);
    }
    if matches_at(data, i, x) && matches_at(data, i + x.len(), y) {
        assert(data.subrange(i, i + (x + y).len()) =~= data.subrange(i, i + x.len())
            + data.subrange(i + x.len(), i + x.len() + y.len()));
    }
}

/// A one-byte pattern matches exactly where that byte stands.
pub proof fn lemma_matches_single(data: Seq<u8>, i: int, c: u8)
    ensures
        matches_at(data, i, seq![c]) == (0 <= i < data.len() && data[i] == c),
{
    if 0 <= i < data.len() {
        assert(data.subrange(i, i + 1) =~= seq![data[i]]);
    }
    if matches_at(data, i, seq![c]) {
        assert(data.subrange(i, i + 1)[0] == data[i]);
    }
}

/// The section header matches piece by piece.
proof fn lemma_header_parts(data: Seq<u8>, i: int, prefix: Seq<u8>, os: Seq<u8>, arch: Seq<u8>)
    ensures
        matches_at(data, i, section_header(prefix, os, arch)) == {
            let p = i + prefix.len();
            let q = p + os.len();
            &&& matches_at(data, i, prefix)
            &&& matches_at(data, p, os)
            &&& q < data.len() && data[q] == DOT
            &&& matches_at(data, q + 1, arch)
            &&& q + 1 + arch.len() < data.len() && data[q + 1 + arch.len()] == CLOSE_BRACKET
        },
{
    let p = i + prefix.len();
    let q = p + os.len();
    lemma_matches_concat(data, i, prefix + os + seq![DOT] + arch, seq![CLOSE_BRACKET]);
    lemma_matches_concat(data, i, prefix + os + seq![DOT], arch);
    lemma_matches_concat(data, i, prefix + os, seq![DOT]);
    lemma_matches_concat(data, i, prefix, os);
    lemma_matches_single(data, q, DOT);
    lemma_matches_single(data, q + 1 + arch.len(), CLOSE_BRACKET);
}

/// The offset just past the first newline at or after `i`, or the end of `data`.
pub open spec fn next_line_start(data: Seq<u8>, i: int) -> int
    decreases data.len() - i,
{
    if i >= data.len() {
        data.len() as int
    } else if data[i] == NEWLINE {
        i + 1
    } else {
        next_line_start(data, i + 1)
    }
}

/// The first offset at or after `from` where a header line for `os` and
/// `arch` begins, if any.
pub open spec fn first_header_line(
    data: Seq<u8>,
    from: int,
    prefix: Seq<u8>,
    os: Seq<u8>,
    arch: Seq<u8>,
) -> Option<int>
    decreases data.len() - from,
{
    if from < 0 || from >= data.len() {
        None
    } else if is_header_line(data, from, prefix, os, arch) {
        Some(from)
    } else {
        first_header_line(data, from + 1, prefix, os, arch)
    }
}

/// `first_header_line` finds the least header line at or after `from`.
pub proof fn lemma_first_header_line(
    data: Seq<u8>,
    from: int,
    prefix: Seq<u8>,
    os: Seq<u8>,
    arch: Seq<u8>,
    res: Option<int>,
)
    requires
        0 <= from,
        match res {
            Some(i) => from <= i < data.len() && is_header_line(data, i, prefix, os, arch) && forall|
                j: int,
            | from <= j < i ==> !is_header_line(data, j, prefix, os, arch),
            None => forall|j: int| from <= j < data.len() ==> !is_header_line(data, j, prefix, os, arch),
        },
    ensures
        first_header_line(data, from, prefix, os, arch) == res,
    decreases data.len() - from,
{
    if from < data.len() {
        if res != Some(from) {
            lemma_first_header_line(data, from + 1, prefix, os, arch, res);
        }
    }
}

/// What `first_header_line` finds is the least header line at or after `from`.
pub proof fn lemma_first_header_line_found(
    data: Seq<u8>,
    from: int,
    prefix: Seq<u8>,
    os: Seq<u8>,
    arch: Seq<u8>,
)
    requires
        0 <= from,
    ensures
        match first_header_line(data, from, prefix, os, arch) {
            Some(i) => from <= i < data.len() && is_header_line(data, i, prefix, os, arch) && forall|
                j: int,
            | from <= j < i ==> !#[trigger] is_header_line(data, j, prefix, os, arch),
            None => forall|j: int|
                from <= j < data.len() ==> !#[trigger] is_header_line(data, j, prefix, os, arch),
        },
    decreases data.len() - from,
{
    if from < data.len() && !is_header_line(data, from, prefix, os, arch) {
        lemma_first_header_line_found(data, from + 1, prefix, os, arch);
    }
}

/// Appending text to a manifest keeps the header line already found in it:
/// a header line that lies wholly in `data` is the first one in `data + tail`.
pub proof fn lemma_find_line_append(
    data: Seq<u8>,
    tail: Seq<u8>,
    prefix: Seq<u8>,
    os: Seq<u8>,
    arch: Seq<u8>,
)
    requires
        first_header_line(data, 0, prefix, os, arch) is Some,
    ensures
        first_header_line(data + tail, 0, prefix, os, arch) == first_header_line(
            data,
            0,
            prefix,
            os,
            arch,
        ),
{
    lemma_first_header_line_found(data, 0, prefix, os, arch);
    let i = first_header_line(data, 0, prefix, os, arch).unwrap();
    let d = data + tail;
    let h = section_header(prefix, os, arch);
    assert(d.subrange(i, i + h.len()) =~= data.subrange(i, i + h.len()));
    if i > 0 {
        assert(d[i - 1] == data[i - 1]);
    }
    assert(is_header_line(d, i, prefix, os, arch));
    assert forall|j: int| 0 <= j < i implies !#[trigger] is_header_line(d, j, prefix, os, arch) by {
        if is_header_line(d, j, prefix, os, arch) {
            assert(d.subrange(j, j + h.len()) =~= data.subrange(j, j + h.len()));
            if j > 0 {
                assert(d[j - 1] == data[j - 1]);
            }
            assert(is_header_line(data, j, prefix, os, arch));
        }
    }
    lemma_first_header_line(d, 0, prefix, os, arch, Some(i));
}

/// A section header built from parts without newlines holds no newline.
proof fn lemma_header_has_no_newline(prefix: Seq<u8>, os: Seq<u8>, arch: Seq<u8>)
    requires
        !prefix.contains(NEWLINE),
        !os.contains(NEWLINE),
        !arch.contains(NEWLINE),
    ensures
        !section_header(prefix, os, arch).contains(NEWLINE),
{
    let h = section_header(prefix, os, arch);
    assert forall|k: int| 0 <= k < h.len() implies h[k] != NEWLINE by {
        let (pl, ol, al) = (prefix.len() as int, os.len() as int, arch.len() as int);
        if k < pl {
            assert(h[k] == prefix[k]);
        } else if k < pl + ol {
            assert(h[k] == os[k - pl]);
        } else if k == pl + ol {
            assert(h[k] == DOT);
        } else if k < pl + ol + 1 + al {
            assert(h[k] == arch[k - pl - ol - 1]);
        } else {
            assert(h[k] == CLOSE_BRACKET);
        }
    }
}

/// Putting complete lines that hold no header line in front of a manifest
/// moves the header line found by exactly the length of those lines, when
/// the prefix, `os` and `arch` hold no newline.
pub proof fn lemma_find_line_after_head(
    head: Seq<u8>,
    data: Seq<u8>,
    prefix: Seq<u8>,
    os: Seq<u8>,
    arch: Seq<u8>,
)
    requires
        head.len() > 0,
        head.last() == NEWLINE,
        first_header_line(head, 0, prefix, os, arch) is None,
        !prefix.contains(NEWLINE),
        !os.contains(NEWLINE),
        !arch.contains(NEWLINE),
    ensures
        first_header_line(head + data, 0, prefix, os, arch) == match first_header_line(
            data,
            0,
            prefix,
            os,
            arch,
        ) {
            Some(i) => Some(i + head.len()),
            None => None,
        },
{
    let d = head + data;
    let n = head.len() as int;
    let h = section_header(prefix, os, arch);
    lemma_first_header_line_found(head, 0, prefix, os, arch);
    lemma_first_header_line_found(data, 0, prefix, os, arch);
    lemma_header_has_no_newline(prefix, os, arch);
    assert forall|j: int| 0 <= j < n implies !#[trigger] is_header_line(d, j, prefix, os, arch) by {
        if is_header_line(d, j, prefix, os, arch) {
            if j + h.len() <= n {
                assert(d.subrange(j, j + h.len()) =~= head.subrange(j, j + h.len()));
                if j > 0 {
                    assert(d[j - 1] == head[j - 1]);
                }
                assert(is_header_line(head, j, prefix, os, arch));
            } else {
                assert(d.subrange(j, j + h.len())[n - 1 - j] == d[n - 1]);
                assert(d[n - 1] == NEWLINE);
                assert(h[n - 1 - j] == NEWLINE);
            }
        }
    }
    assert forall|j: int| 0 <= j < data.len() implies #[trigger] is_header_line(
        d,
        j + n,
        prefix,
        os,
        arch,
    ) == is_header_line(data, j, prefix, os, arch) by {
        assert(d[j + n - 1] == if j == 0 {
            head[n - 1]
        } else {
            data[j - 1]
        });
        if j + h.len() <= data.len() {
            assert(d.subrange(j + n, j + n + h.len()) =~= data.subrange(j, j + h.len()));
        }
    }
    match first_header_line(data, 0, prefix, os, arch) {
        Some(i) => {
            assert(is_header_line(d, i + n, prefix, os, arch));
            assert forall|j: int| 0 <= j < i + n implies !#[trigger] is_header_line(
                d,
                j,
                prefix,
                os,
                arch,
            ) by {
                if j >= n {
                    assert(is_header_line(d, (j - n) + n, prefix, os, arch) == is_header_line(
                        data,
                        j - n,
                        prefix,
                        os,
                        arch,
                    ));
                }
            }
            lemma_first_header_line(d, 0, prefix, os, arch, Some(i + n));
        },
        None => {
            assert forall|j: int| 0 <= j < d.len() implies !#[trigger] is_header_line(
                d,
                j,
                prefix,
                os,
                arch,
            ) by {
                if j >= n {
                    assert(is_header_line(d, (j - n) + n, prefix, os, arch) == is_header_line(
                        data,
                        j - n,
                        prefix,
                        os,
                        arch,
                    ));
                }
            }
            lemma_first_header_line(d, 0, prefix, os, arch, None);
        },
    }
}

/// The next line starts after `i`.
pub proof fn lemma_next_line_start_advances(data: Seq<u8>, i: int)
    requires
        0 <= i < data.len(),
    ensures
        i < next_line_start(data, i) <= data.len(),
    decreases data.len() - i,
{
    if data[i] != NEWLINE {
        if i + 1 < data.len() {
            lemma_next_line_start_advances(data, i + 1);
        } else {
            assert(next_line_start(data, i + 1) == data.len());
        }
    }
}

/// Moves from `i` to the start of the next line, or to the end of `bytes`.
fn skip_line(bytes: &[u8], i: usize) -> (j: usize)
    requires
        i <= bytes@.len(),
    ensures
        i <= j <= bytes@.len(),
        i < bytes@.len() ==> i < j,
        j < bytes@.len() ==> bytes@[j - 1] == NEWLINE,
        forall|k: int| i < k < j ==> !#[trigger] is_line_start(bytes@, k),
        j == next_line_start(bytes@, i as int),
{
    let mut i = i;
    let ghost start = i;
    while i < bytes.len() && bytes[i] != NEWLINE
        invariant
            start <= i <= bytes@.len(),
            next_line_start(bytes@, start as int) == next_line_start(bytes@, i as int),
            forall|k: int| start < k <= i ==> !#[trigger] is_line_start(bytes@, k),
        decreases bytes@.len() - i,
    {
        i += 1;
    }
    if i < bytes.len() {
        i += 1;
    }
    i
}

/// Searches `manifest` for the first line that starts with the section
/// header `{prefix}{os}.{arch}]` and returns the offset of that line.
/// Returns `None` when no line starts with that header.
pub fn find_line(manifest: &str, os: &str, arch: &str, prefix: &str) -> (res: Option<usize>)
    ensures
        match res {
            Some(i) => {
                &&& is_header_line(
                    manifest.spec_bytes(),
                    i as int,
                    prefix.spec_bytes(),
                    os.spec_bytes(),
                    arch.spec_bytes(),
                )
                &&& forall|j: int|
                    0 <= j < i ==> !#[trigger] is_header_line(
                        manifest.spec_bytes(),
                        j,
                        prefix.spec_bytes(),
                        os.spec_bytes(),
                        arch.spec_bytes(),
                    )
            },
            None => forall|j: int|
                !#[trigger] is_header_line(
                    manifest.spec_bytes(),
                    j,
                    prefix.spec_bytes(),
                    os.spec_bytes(),
                    arch.spec_bytes(),
                ),
        },
        first_header_line(
            manifest.spec_bytes(),
            0,
            prefix.spec_bytes(),
            os.spec_bytes(),
            arch.spec_bytes(),
        ) == (match res {
            Some(i) => Some(i as int),
            None => None,
        }),
{
    let bytes = manifest.as_bytes();
    let os_bytes = os.as_bytes();
    let arch_bytes = arch.as_bytes();
    let prefix_bytes = prefix.as_bytes();
    let ghost (b, p, o, a) = (bytes@, prefix_bytes@, os_bytes@, arch_bytes@);

    let mut i: usize = 0;

    while i < bytes.len()
        invariant
            b == bytes@,
            b == manifest.spec_bytes(),
            p == prefix.spec_bytes(),
            o == os.spec_bytes(),
            a == arch.spec_bytes(),
            p == prefix_bytes@,
            o == os_bytes@,
            a == arch_bytes@,
            i <= b.len(),
            forall|j: int| 0 <= j < i ==> !is_header_line(b, j, p, o, a),
        decreases b.len() - i,
    {
        proof {
            lemma_header_parts(b, i as int, p, o, a);
        }
        // Only consider the beginning of lines.
        if i != 0 && bytes[i - 1] != NEWLINE {
            i += 1;
            continue;
        }
        if !bytes_eq_at(bytes, i, prefix_bytes) {
            i = skip_line(bytes, i);
            continue;
        }
        let mut pos = i + prefix_bytes.len();

        if !bytes_eq_at(bytes, pos, os_bytes) {
            i = skip_line(bytes, i);
            continue;
        }
        pos += os_bytes.len();

        if pos >= bytes.len() || bytes[pos] != DOT {
            i = skip_line(bytes, i);
            continue;
        }
        pos += 1;

        if !bytes_eq_at(bytes, pos, arch_bytes) {
            i = skip_line(bytes, i);
            continue;
        }
        pos += arch_bytes.len();

        if pos < bytes.len() && bytes[pos] == CLOSE_BRACKET {
            proof {
                lemma_first_header_line(b, 0, p, o, a, Some(i as int));
            }
            return Some(i);
        }
        i = skip_line(bytes, i);
    }
    proof {
        assert forall|j: int| !is_header_line(b, j, p, o, a) by {
            if 0 <= j < b.len() {
            } else if matches_at(b, j, section_header(p, o, a)) {
                assert(section_header(p, o, a).len() >= 2);
            }
        }
        lemma_first_header_line(b, 0, p, o, a, None);
    }
    None
}

/// The bytes ` = "` that separate a key from its quoted value.
pub open spec fn field_separator() -> Seq<u8> {
    seq![SPACE, EQUALS, SPACE, QUOTE]
}

/// The offset of the first `"` at or after `j`, or the end of `data`.
pub open spec fn closing_quote(data: Seq<u8>, j: int) -> int
    decreases data.len() - j,
{
    if j >= data.len() {
        data.len() as int
    } else if data[j] == QUOTE {
        j
    } else {
        closing_quote(data, j + 1)
    }
}

/// Where `data` holds `key = "value"` starting at `i`, the bounds of `value`.
pub open spec fn field_value_at(data: Seq<u8>, i: int, key: Seq<u8>) -> Option<(int, int)> {
    let value_start = i + key.len() + field_separator().len();
    if matches_at(data, i, key + field_separator()) && closing_quote(data, value_start)
        < data.len() {
        Some((value_start, closing_quote(data, value_start)))
    } else {
        None
    }
}

/// Reads `key = "value"` fields starting at `i` and then at each following
/// line, stopping at the first position that holds `[` (the next section)
/// or at the end of `data`: the bounds of the first value found.
pub open spec fn field_search(data: Seq<u8>, i: int, key: Seq<u8>) -> Option<(int, int)>
    decreases data.len() - i,
{
    if i < 0 || i >= data.len() {
        None
    } else if data[i] == OPEN_BRACKET {
        None
    } else if field_value_at(data, i, key) is Some {
        field_value_at(data, i, key)
    } else {
        proof {
            lemma_next_line_start_advances(data, i);
        }
        field_search(data, next_line_start(data, i), key)
    }
}

/// The four separator bytes match where they stand one by one.
proof fn lemma_matches_separator(data: Seq<u8>, pos: int)
    requires
        0 <= pos,
    ensures
        matches_at(data, pos, field_separator()) == (pos + 4 <= data.len() && data[pos] == SPACE
            && data[pos + 1] == EQUALS && data[pos + 2] == SPACE && data[pos + 3] == QUOTE),
{
    if pos + 4 <= data.len() {
        let sub = data.subrange(pos, pos + 4);
        if sub == field_separator() {
            assert(sub[0] == SPACE && sub[1] == EQUALS && sub[2] == SPACE && sub[3] == QUOTE);
        }
        if data[pos] == SPACE && data[pos + 1] == EQUALS && data[pos + 2] == SPACE && data[pos + 3]
            == QUOTE {
            assert(sub =~= field_separator());
        }
    }
}

/// In valid UTF-8, the byte after an ASCII byte starts a character.
proof fn lemma_boundary_after_ascii(bytes: Seq<u8>, i: int)
    requires
        valid_utf8(bytes),
        0 <= i < bytes.len(),
        bytes[i] < 0x80,
    ensures
        is_char_boundary(bytes, i + 1),
{
    is_char_boundary_iff_not_is_continuation_byte(bytes, i);
    valid_utf8_split(bytes, i);
    let t = bytes.subrange(i, bytes.len() as int);
    assert(t[0] == bytes[i]);
    let rest = pop_first_scalar(t);
    assert(valid_utf8(rest));
    if i + 1 < bytes.len() {
        assert(rest =~= bytes.subrange(i + 1, bytes.len() as int));
        is_char_boundary_start_end_of_seq(rest);
        is_char_boundary_iff_not_is_continuation_byte(rest, 0);
        assert(rest[0] == bytes[i + 1]);
        is_char_boundary_iff_not_is_continuation_byte(bytes, i + 1);
    } else {
        is_char_boundary_start_end_of_seq(bytes);
    }
}

/// Finds the value of `key` in the section of `manifest` that begins at
/// `start`: fields are read at `start` and then at the start of each
/// following line, in the form `key = "value"` (spaces exactly as shown),
/// until a line begins with `[` or the text ends.
/// Returns `None` when no value is found before that.
pub fn find_field<'a>(manifest: &'a str, start: usize, key: &str) -> (res: Option<&'a str>)
    ensures
        match field_search(manifest.spec_bytes(), start as int, key.spec_bytes()) {
            Some((value_start, value_end)) => res matches Some(value) && value.spec_bytes()
                == manifest.spec_bytes().subrange(value_start, value_end),
            None => res is None,
        },
{
    let bytes = manifest.as_bytes();
    let key_bytes = key.as_bytes();
    let ghost b = bytes@;
    let ghost k = key_bytes@;
    let mut i = start;
    proof {
        encode_utf8_valid_utf8(manifest@);
    }
    while i < bytes.len()
        invariant
            b == bytes@,
            b == manifest.spec_bytes(),
            k == key_bytes@,
            k == key.spec_bytes(),
            valid_utf8(b),
            field_search(b, start as int, k) == field_search(b, i as int, k),
        decreases b.len() - i,
    {
        if bytes[i] == OPEN_BRACKET {
            return None;
        }
        proof {
            lemma_matches_concat(b, i as int, k, field_separator());
            lemma_matches_separator(b, i + k.len());
        }
        if bytes_eq_at(bytes, i, key_bytes) {
            let mut pos = i + key_bytes.len();
            // expect exactly ` = "` (space, equals, space, quote)
            if bytes.len() - pos >= 4 && bytes[pos] == SPACE && bytes[pos + 1] == EQUALS && bytes[pos
                + 2] == SPACE && bytes[pos + 3] == QUOTE {
                pos += 4;
                let value_start = pos;
                let mut value_end = value_start;
                while value_end < bytes.len() && bytes[value_end] != QUOTE
                    invariant
                        b == bytes@,
                        value_start <= value_end <= b.len(),
                        closing_quote(b, value_start as int) == closing_quote(b, value_end as int),
                    decreases b.len() - value_end,
                {
                    value_end += 1;
                }
                if value_end < bytes.len() {
                    proof {
                        lemma_boundary_after_ascii(b, value_start - 1);
                        valid_utf8_split(b, value_start as int);
                        let rest = b.subrange(value_start as int, b.len() as int);
                        assert(rest[value_end - value_start] == QUOTE);
                        is_char_boundary_iff_not_is_continuation_byte(
                            rest,
                            value_end - value_start,
                        );
                    }
                    let (_, rest) = manifest.split_at(value_start);
                    let (value, _) = rest.split_at(value_end - value_start);
                    proof {
                        assert(value.spec_bytes() =~= b.subrange(
                            value_start as int,
                            value_end as int,
                        ));
                    }
                    return Some(value);
                }
            }
        }
        proof {
            lemma_next_line_start_advances(b, i as int);
        }
        i = skip_line(bytes, i);
    }
    None
}

/// The number of newline bytes in `s`.
pub open spec fn newline_count(s: Seq<u8>) -> nat
    decreases s.len(),
{
    if s.len() == 0 {
        0
    } else {
        newline_count(s.drop_last()) + if s.last() == NEWLINE {
            1nat
        } else {
            0nat
        }
    }
}

/// The 1-based number of the line of `manifest` on which `offset` lies.
pub fn line_of_offset(manifest: &str, offset: usize) -> (line: usize)
    requires
        is_char_boundary(manifest.spec_bytes(), offset as int),
        manifest.spec_bytes().len() < usize::MAX,
    ensures
        line == newline_count(manifest.spec_bytes().subrange(0, offset as int)) + 1,
{
    let bytes = manifest.as_bytes();
    proof {
        encode_utf8_valid_utf8(manifest@);
        is_char_boundary_start_end_of_seq(bytes@);
        if offset > bytes@.len() {
            assert(!is_char_boundary(bytes@, offset as int));
        }
    }
    let mut count: usize = 0;
    let mut i: usize = 0;
    while i < offset
        invariant
            offset <= bytes@.len() < usize::MAX,
            i <= offset,
            count == newline_count(bytes@.subrange(0, i as int)),
            count <= i,
        decreases offset - i,
    {
        assert(bytes@.subrange(0, i + 1).drop_last() =~= bytes@.subrange(0, i as int));
        if bytes[i] == NEWLINE {
            count += 1;
        }
        i += 1;
    }
    count + 1
}


/// Bounds moved `n` bytes further on.
pub open spec fn shift_bounds(r: Option<(int, int)>, n: int) -> Option<(int, int)> {
    match r {
        Some((a, b)) => Some((a + n, b + n)),
        None => None,
    }
}

/// Matching looks only at the bytes it covers.
proof fn lemma_matches_shift(pre: Seq<u8>, rest: Seq<u8>, j: int, pat: Seq<u8>)
    requires
        0 <= j,
    ensures
        matches_at(pre + rest, pre.len() + j, pat) == matches_at(rest, j, pat),
{
    let d = pre + rest;
    let n = pre.len() as int;
    if j + pat.len() <= rest.len() {
        assert(d.subrange(n + j, n + j + pat.len()) =~= rest.subrange(j, j + pat.len()));
    }
}

/// The end of a line is found by looking forward only.
pub proof fn lemma_next_line_start_shift(pre: Seq<u8>, rest: Seq<u8>, j: int)
    requires
        0 <= j,
    ensures
        next_line_start(pre + rest, pre.len() + j) == pre.len() + next_line_start(rest, j),
    decreases rest.len() - j,
{
    let d = pre + rest;
    if j < rest.len() {
        assert(d[pre.len() + j] == rest[j]);
        if rest[j] != NEWLINE {
            lemma_next_line_start_shift(pre, rest, j + 1);
        }
    }
}

/// The closing quote is found by looking forward only.
proof fn lemma_closing_quote_shift(pre: Seq<u8>, rest: Seq<u8>, j: int)
    requires
        0 <= j,
    ensures
        closing_quote(pre + rest, pre.len() + j) == pre.len() + closing_quote(rest, j),
    decreases rest.len() - j,
{
    let d = pre + rest;
    if j < rest.len() {
        assert(d[pre.len() + j] == rest[j]);
        if rest[j] != QUOTE {
            lemma_closing_quote_shift(pre, rest, j + 1);
        }
    }
}

/// The search for a field from offset `pre.len() + j` of `pre + rest` is
/// the search from offset `j` of `rest`, moved by `pre.len()`: it never
/// looks back.
proof fn lemma_field_search_shift(pre: Seq<u8>, rest: Seq<u8>, j: int, key: Seq<u8>)
    requires
        0 <= j,
    ensures
        field_search(pre + rest, pre.len() + j, key) == shift_bounds(
            field_search(rest, j, key),
            pre.len() as int,
        ),
    decreases rest.len() - j,
{
    let d = pre + rest;
    let n = pre.len() as int;
    if j < rest.len() {
        assert(d[n + j] == rest[j]);
        lemma_matches_shift(pre, rest, j, key + field_separator());
        lemma_closing_quote_shift(pre, rest, j + key.len() + field_separator().len());
        if rest[j] != OPEN_BRACKET && field_value_at(rest, j, key) is None {
            lemma_next_line_start_advances(rest, j);
            lemma_next_line_start_shift(pre, rest, j);
            lemma_field_search_shift(pre, rest, next_line_start(rest, j), key);
        }
    }
}

/// Reading fields from the start of `rest`, placed after any text `pre`,
/// finds the same field as in `rest` alone, at offsets moved by the length
/// of `pre`.
pub proof fn lemma_field_search_after(pre: Seq<u8>, rest: Seq<u8>, key: Seq<u8>)
    ensures
        field_search(pre + rest, pre.len() as int, key) == shift_bounds(
            field_search(rest, 0, key),
            pre.len() as int,
        ),
{
    lemma_field_search_shift(pre, rest, 0, key);
}

/// A line that begins with `[` ends the search: no field is read from it
/// or after it.
pub proof fn lemma_field_search_stops_at_section(data: Seq<u8>, key: Seq<u8>)
    requires
        data.len() > 0,
        data[0] == OPEN_BRACKET,
    ensures
        field_search(data, 0, key) is None,
{
}

/// A line `key = "value"` (no `"` inside the value) gives the bounds of
/// its value, unless the key itself starts with `[`.
pub proof fn lemma_field_search_reads_field(key: Seq<u8>, value: Seq<u8>, rest: Seq<u8>)
    requires
        key.len() == 0 || key[0] != OPEN_BRACKET,
        !value.contains(QUOTE),
    ensures
        ({
            let data = key + field_separator() + value + seq![QUOTE] + rest;
            let value_start = key.len() + 4int;
            field_search(data, 0, key) == Some((value_start, value_start + value.len()))
        }),
{
    let sep = field_separator();
    let data = key + sep + value + seq![QUOTE] + rest;
    let vs = key.len() + 4int;
    assert(data.subrange(0, (key + sep).len() as int) =~= key + sep);
    assert(data[0] != OPEN_BRACKET) by {
        if key.len() == 0 {
            assert(data[0] == sep[0]);
        } else {
            assert(data[0] == key[0]);
        }
    }
    assert forall|k: int| vs <= k < vs + value.len() implies data[k] != QUOTE by {
        assert(data[k] == value[k - vs]);
    }
    assert(data[vs + value.len()] == QUOTE);
    lemma_closing_quote_finds(data, vs, vs + value.len());
}

/// The first `"` from `j` on stands at `q` when there is one at `q` and
/// none before it.
proof fn lemma_closing_quote_finds(data: Seq<u8>, j: int, q: int)
    requires
        0 <= j <= q < data.len(),
        data[q] == QUOTE,
        forall|k: int| j <= k < q ==> data[k] != QUOTE,
    ensures
        closing_quote(data, j) == q,
    decreases q - j,
{
    if j < q {
        lemma_closing_quote_finds(data, j + 1, q);
    }
}

/// The end of a line without newlines is just past the newline after it.
pub proof fn lemma_next_line_start_of_line(line: Seq<u8>, rest: Seq<u8>, j: int)
    requires
        !line.contains(NEWLINE),
        0 <= j <= line.len(),
    ensures
        next_line_start(line + seq![NEWLINE] + rest, j) == line.len() + 1,
    decreases line.len() - j,
{
    let d = line + seq![NEWLINE] + rest;
    if j < line.len() {
        assert(d[j] == line[j]);
        lemma_next_line_start_of_line(line, rest, j + 1);
    } else {
        assert(d[j] == NEWLINE);
    }
}

/// A line that neither begins with `[` nor with `key = "` is passed over:
/// the search goes on at the next line, whatever else the line holds (a `[`
/// after its first byte included).
pub proof fn lemma_field_search_skips_line(line: Seq<u8>, rest: Seq<u8>, key: Seq<u8>)
    requires
        !line.contains(NEWLINE),
        line.len() == 0 || line[0] != OPEN_BRACKET,
        !matches_at(line + seq![NEWLINE] + rest, 0, key + field_separator()),
    ensures
        field_search(line + seq![NEWLINE] + rest, 0, key) == shift_bounds(
            field_search(rest, 0, key),
            line.len() + 1int,
        ),
{
    let head = line + seq![NEWLINE];
    let d = head + rest;
    assert(d[0] != OPEN_BRACKET) by {
        if line.len() == 0 {
            assert(d[0] == NEWLINE);
        } else {
            assert(d[0] == line[0]);
        }
    }
    lemma_next_line_start_of_line(line, rest, 0);
    lemma_field_search_after(head, rest, key);
}

/// Newlines of a concatenation add up.
pub proof fn lemma_newline_count_concat(a: Seq<u8>, b: Seq<u8>)
    ensures
        newline_count(a + b) == newline_count(a) + newline_count(b),
    decreases b.len(),
{
    if b.len() > 0 {
        assert((a + b).drop_last() =~= a + b.drop_last());
        lemma_newline_count_concat(a, b.drop_last());
    } else {
        assert(a + b =~= a);
    }
}

/// A single byte counts as a line break exactly when it is `\n`.
pub proof fn lemma_newline_count_single(c: u8)
    ensures
        newline_count(seq![c]) == if c == NEWLINE {
            1nat
        } else {
            0nat
        },
{
    assert(seq![c].drop_last() =~= Seq::<u8>::empty());
    assert(newline_count(Seq::<u8>::empty()) == 0);
    assert(seq![c].last() == c);
}

} // verus!
