use vstd::prelude::*;
use crate::options::{Options, DEFAULT_SEEDING_POINTS, DEFAULT_SEEDING_STEP};

verus! {

/// ASCII whitespace: space, tab, line feed, vertical tab, form feed, carriage return.
pub open spec fn is_ws(b: u8) -> bool {
    b == 32 || (9 <= b && b <= 13)
}

/// Length of the run of non-whitespace bytes that `s` starts with.
pub open spec fn token_len(s: Seq<u8>) -> nat
    decreases s.len(),
{
    if s.len() == 0 || is_ws(s[0]) {
        0
    } else {
        1 + token_len(s.drop_first())
    }
}

proof fn lemma_token_len(s: Seq<u8>)
    ensures
        token_len(s) <= s.len(),
        s.len() > 0 && !is_ws(s[0]) ==> token_len(s) >= 1,
        forall|i: int| 0 <= i < token_len(s) ==> !is_ws(#[trigger] s[i]),
        token_len(s) < s.len() ==> is_ws(s[token_len(s) as int]),
    decreases s.len(),
{
    if s.len() > 0 && !is_ws(s[0]) {
        lemma_token_len(s.drop_first());
        assert forall|i: int| 0 <= i < token_len(s) implies !is_ws(#[trigger] s[i]) by {
            if i > 0 {
                assert(s[i] == s.drop_first()[i - 1]);
            }
        }
    }
}

/// The whitespace-separated words of `s`.
pub open spec fn split_ws(s: Seq<u8>) -> Seq<Seq<u8>>
    decreases s.len(),
    via split_ws_decreases
{
    if s.len() == 0 {
        seq![]
    } else if is_ws(s[0]) {
        split_ws(s.drop_first())
    } else {
        let n = token_len(s) as int;
        seq![s.take(n)] + split_ws(s.skip(n))
    }
}

#[via_fn]
proof fn split_ws_decreases(s: Seq<u8>) {
    lemma_token_len(s);
}

/// Length of the line that `s` starts with, up to the first line feed or the end.
pub open spec fn line_len(s: Seq<u8>) -> nat
    decreases s.len(),
{
    if s.len() == 0 || s[0] == 10 {
        0
    } else {
        1 + line_len(s.drop_first())
    }
}

proof fn lemma_line_len(s: Seq<u8>)
    ensures
        line_len(s) <= s.len(),
        forall|i: int| 0 <= i < line_len(s) ==> #[trigger] s[i] != 10,
        line_len(s) < s.len() ==> s[line_len(s) as int] == 10,
    decreases s.len(),
{
    if s.len() > 0 && s[0] != 10 {
        lemma_line_len(s.drop_first());
        assert forall|i: int| 0 <= i < line_len(s) implies #[trigger] s[i] != 10 by {
            if i > 0 {
                assert(s[i] == s.drop_first()[i - 1]);
            }
        }
    }
}

/// A line without the carriage return that may end it.
pub open spec fn strip_cr(line: Seq<u8>) -> Seq<u8> {
    if line.len() > 0 && line.last() == 13 {
        line.drop_last()
    } else {
        line
    }
}

/// The lines of a text: split at each line feed, a carriage return before it dropped,
/// with no empty last line after a final line feed.
pub open spec fn split_lines(s: Seq<u8>) -> Seq<Seq<u8>>
    decreases s.len(),
    via split_lines_decreases
{
    if s.len() == 0 {
        seq![]
    } else {
        let n = line_len(s) as int;
        seq![strip_cr(s.take(n))] + if n < s.len() {
            split_lines(s.skip(n + 1))
        } else {
            seq![]
        }
    }
}

#[via_fn]
proof fn split_lines_decreases(s: Seq<u8>) {
    lemma_line_len(s);
}

pub open spec fn is_digit(b: u8) -> bool {
    48 <= b && b <= 57
}

/// The value of a string of decimal digits.
pub open spec fn digits_value(s: Seq<u8>) -> nat
    decreases s.len(),
{
    if s.len() == 0 {
        0
    } else {
        digits_value(s.drop_last()) * 10 + (s.last() - 48) as nat
    }
}

/// A word without the `+` it may start with.
pub open spec fn unsigned_part(t: Seq<u8>) -> Seq<u8> {
    if t.len() > 0 && t[0] == 43 {
        t.drop_first()
    } else {
        t
    }
}

pub open spec fn all_digits(d: Seq<u8>) -> bool {
    forall|i: int| 0 <= i < d.len() ==> is_digit(#[trigger] d[i])
}

/// A word read as a `usize`: an optional `+`, then one or more decimal digits whose
/// value fits.
pub open spec fn number_of(t: Seq<u8>) -> Option<usize> {
    let d = unsigned_part(t);
    if d.len() > 0 && all_digits(d) && digits_value(d) <= usize::MAX {
        Some(digits_value(d) as usize)
    } else {
        None
    }
}

/// The channel count and grid extents of a `sizes:` directive: exactly four numbers,
/// the first of them the number of channels per voxel.
pub open spec fn sizes_of(rest: Seq<u8>) -> Option<(usize, usize, usize)> {
    let w = split_ws(rest);
    if w.len() == 4 && number_of(w[0]) == Some(7usize) && number_of(w[1]) is Some && number_of(
        w[2],
    ) is Some && number_of(w[3]) is Some {
        Some((number_of(w[1])->0, number_of(w[2])->0, number_of(w[3])->0))
    } else {
        None
    }
}

pub open spec fn sizes_key() -> Seq<u8> {
    seq![115u8, 105, 122, 101, 115, 58, 32]
}

pub open spec fn endian_key() -> Seq<u8> {
    seq![101u8, 110, 100, 105, 97, 110, 58, 32]
}

pub open spec fn data_file_key() -> Seq<u8> {
    seq![100u8, 97, 116, 97, 32, 102, 105, 108, 101, 58, 32]
}

pub open spec fn little_word() -> Seq<u8> {
    seq![108u8, 105, 116, 116, 108, 101]
}

pub open spec fn starts_with(s: Seq<u8>, key: Seq<u8>) -> bool {
    key.len() <= s.len() && s.take(key.len() as int) == key
}

/// What a header says: byte order, grid extents and data file.
pub type HeaderFields = (bool, (usize, usize, usize), Option<Seq<u8>>);

pub open spec fn default_fields() -> HeaderFields {
    (false, (0, 0, 0), None)
}

/// `h` updated by one header line. A `sizes:` line sets the extents, an `endian:` line
/// the byte order, a `data file:` line with a path the data file; other lines say
/// nothing. A malformed `sizes:` line spoils the header.
pub open spec fn apply_line(h: HeaderFields, line: Seq<u8>) -> Option<HeaderFields> {
    if starts_with(line, sizes_key()) {
        match sizes_of(line.skip(sizes_key().len() as int)) {
            Some(d) => Some((h.0, d, h.2)),
            None => None,
        }
    } else if starts_with(line, endian_key()) {
        Some((line.skip(endian_key().len() as int) == little_word(), h.1, h.2))
    } else if starts_with(line, data_file_key()) && line.len() > data_file_key().len() {
        Some((h.0, h.1, Some(line.skip(data_file_key().len() as int))))
    } else {
        Some(h)
    }
}

/// `h` updated by each of `lines` in turn.
pub open spec fn apply_lines(h: HeaderFields, lines: Seq<Seq<u8>>) -> Option<HeaderFields>
    decreases lines.len(),
{
    if lines.len() == 0 {
        Some(h)
    } else {
        match apply_line(h, lines[0]) {
            Some(h2) => apply_lines(h2, lines.drop_first()),
            None => None,
        }
    }
}

/// A header that cannot be read.
#[derive(Clone, Copy, Debug, PartialEq, Eq, Structural)]
pub enum HeaderError {
    /// A `sizes:` line is not four numbers, the first of them 7.
    MalformedSizes,
}

proof fn lemma_digits_grow(d: Seq<u8>, k: int)
    requires
        0 <= k < d.len(),
        is_digit(d[k]),
    ensures
        digits_value(d.take(k + 1)) == digits_value(d.take(k)) * 10 + (d[k] - 48) as nat,
        digits_value(d.take(k + 1)) >= digits_value(d.take(k)),
{
    assert(d.take(k + 1).drop_last() =~= d.take(k));
}

/// Reads a word as a `usize`: an optional `+`, then decimal digits.
pub fn parse_number(t: &[u8]) -> (r: Option<usize>)
    ensures
        r == number_of(t@),
{
    let start: usize = if t.len() > 0 && t[0] == 43 { 1 } else { 0 };
    let d = vstd::slice::slice_subrange(t, start, t.len());
    assert(d@ =~= unsigned_part(t@));
    if d.len() == 0 {
        return None;
    }
    let mut v: usize = 0;
    let mut over = false;
    let mut k: usize = 0;
    while k < d.len()
        invariant
            d@ == unsigned_part(t@),
            d@.len() > 0,
            k <= d@.len(),
            forall|i: int| 0 <= i < k ==> is_digit(#[trigger] d@[i]),
            !over ==> v == digits_value(d@.take(k as int)),
            over ==> digits_value(d@.take(k as int)) > usize::MAX,
        decreases d@.len() - k,
    {
        let b = d[k];
        if b < 48 || b > 57 {
            assert(!is_digit(d@[k as int]));
            return None;
        }
        proof {
            lemma_digits_grow(d@, k as int);
        }
        if !over {
            match v.checked_mul(10) {
                None => {
                    over = true;
                },
                Some(m) => match m.checked_add((b - 48) as usize) {
                    None => {
                        over = true;
                    },
                    Some(n) => {
                        v = n;
                    },
                },
            }
        }
        k = k + 1;
    }
    assert(d@.take(d@.len() as int) =~= d@);
    if over {
        None
    } else {
        Some(v)
    }
}

/// The byte ranges of the whitespace-separated words of `s`.
pub fn split_words(s: &[u8]) -> (r: Vec<(usize, usize)>)
    ensures
        r@.len() == split_ws(s@).len(),
        forall|i: int|
            0 <= i < r@.len() ==> {
                &&& (#[trigger] r@[i]).0 <= r@[i].1 <= s@.len()
                &&& s@.subrange(r@[i].0 as int, r@[i].1 as int) == split_ws(s@)[i]
            },
{
    let mut r: Vec<(usize, usize)> = Vec::new();
    let mut pos: usize = 0;
    let ghost words: Seq<Seq<u8>> = seq![];
    assert(s@.skip(0) =~= s@);
    while pos < s.len()
        invariant
            pos <= s@.len(),
            words.len() == r@.len(),
            words + split_ws(s@.skip(pos as int)) == split_ws(s@),
            forall|i: int|
                0 <= i < r@.len() ==> {
                    &&& (#[trigger] r@[i]).0 <= r@[i].1 <= s@.len()
                    &&& s@.subrange(r@[i].0 as int, r@[i].1 as int) == words[i]
                },
        decreases s@.len() - pos,
    {
        let ghost rest = s@.skip(pos as int);
        if s[pos] == 32 || (9 <= s[pos] && s[pos] <= 13) {
            assert(rest.drop_first() =~= s@.skip(pos + 1));
            pos = pos + 1;
        } else {
            let mut end = pos;
            while end < s.len() && !(s[end] == 32 || (9 <= s[end] && s[end] <= 13))
                invariant
                    pos <= end <= s@.len(),
                    forall|i: int| pos <= i < end ==> !is_ws(#[trigger] s@[i]),
                decreases s@.len() - end,
            {
                end = end + 1;
            }
            proof {
                lemma_token_len(rest);
                let n = token_len(rest) as int;
                if end - pos < n {
                    assert(rest[end - pos] == s@[end as int]);
                }
                if end - pos > n {
                    assert(rest[n] == s@[pos + n]);
                }
                assert(end - pos == n);
                assert(rest.take(n) =~= s@.subrange(pos as int, end as int));
                assert(rest.skip(n) =~= s@.skip(end as int));
                words = words.push(s@.subrange(pos as int, end as int));
                assert(words + split_ws(s@.skip(end as int)) =~= (words.drop_last() + split_ws(rest)));
            }
            r.push((pos, end));
            pos = end;
        }
    }
    assert(s@.skip(pos as int) =~= Seq::<u8>::empty());
    assert(words =~= split_ws(s@));
    r
}

/// The UTF-8 bytes of each line.
pub open spec fn utf8_lines(lines: Seq<String>) -> Seq<Seq<u8>> {
    lines.map_values(|l: String| vstd::utf8::encode_utf8(l@))
}

/// The header fields an `Options` value holds.
pub open spec fn fields_of(o: Options) -> HeaderFields {
    (
        o.little_endian,
        (o.width, o.height, o.depth),
        match o.file {
            Some(f) => Some(f@),
            None => None,
        },
    )
}

/// `o` with its header fields replaced by `h`.
pub open spec fn with_fields(o: Options, h: HeaderFields) -> bool {
    o.little_endian == h.0 && (o.width, o.height, o.depth) == h.1 && match o.file {
        Some(f) => h.2 == Some(f@),
        None => h.2 is None,
    }
}

/// Whether `s` begins with `key`.
fn has_prefix(s: &[u8], key: &[u8]) -> (r: bool)
    ensures
        r == starts_with(s@, key@),
{
    if key.len() > s.len() {
        return false;
    }
    let mut i: usize = 0;
    while i < key.len()
        invariant
            key@.len() <= s@.len(),
            i <= key@.len(),
            forall|k: int| 0 <= k < i ==> s@[k] == key@[k],
        decreases key@.len() - i,
    {
        if s[i] != key[i] {
            assert(s@.take(key@.len() as int)[i as int] != key@[i as int]);
            return false;
        }
        i = i + 1;
    }
    assert(s@.take(key@.len() as int) =~= key@);
    true
}

/// Whether two byte strings are equal.
fn same_bytes(a: &[u8], b: &[u8]) -> (r: bool)
    ensures
        r == (a@ == b@),
{
    if a.len() != b.len() {
        return false;
    }
    let mut i: usize = 0;
    while i < a.len()
        invariant
            a@.len() == b@.len(),
            i <= a@.len(),
            forall|k: int| 0 <= k < i ==> a@[k] == b@[k],
        decreases a@.len() - i,
    {
        if a[i] != b[i] {
            return false;
        }
        i = i + 1;
    }
    assert(a@ =~= b@);
    true
}

/// Reads the numbers of a `sizes:` directive.
fn parse_sizes(rest: &[u8]) -> (r: Option<(usize, usize, usize)>)
    ensures
        r == sizes_of(rest@),
{
    let words = split_words(rest);
    if words.len() != 4 {
        return None;
    }
    let ghost w = split_ws(rest@);
    let mut nums: Vec<usize> = Vec::new();
    let mut i: usize = 0;
    while i < 4
        invariant
            words@.len() == 4,
            w == split_ws(rest@),
            w.len() == 4,
            i <= 4,
            nums@.len() == i,
            forall|k: int|
                0 <= k < 4 ==> {
                    &&& (#[trigger] words@[k]).0 <= words@[k].1 <= rest@.len()
                    &&& rest@.subrange(words@[k].0 as int, words@[k].1 as int) == w[k]
                },
            forall|k: int| 0 <= k < i ==> number_of(w[k]) == Some(#[trigger] nums@[k]),
        decreases 4 - i,
    {
        let (a, b) = words[i];
        let word = vstd::slice::slice_subrange(rest, a, b);
        match parse_number(word) {
            None => {
                return None;
            },
            Some(v) => {
                nums.push(v);
            },
        }
        i = i + 1;
    }
    if nums[0] != 7 {
        return None;
    }
    Some((nums[1], nums[2], nums[3]))
}

/// Copies the bytes of `s` from `start` on.
fn tail_of(s: &[u8], start: usize) -> (r: Vec<u8>)
    requires
        start <= s@.len(),
    ensures
        r@ == s@.skip(start as int),
{
    let t = vstd::slice::slice_subrange(s, start, s.len());
    let r = vstd::slice::slice_to_vec(t);
    assert(r@ =~= s@.skip(start as int));
    r
}

/// Updates `opts` by one header line; false when it is a malformed `sizes:` line, in
/// which case `opts` is left as it was.
fn apply_header_line(opts: &mut Options, line: &[u8]) -> (r: bool)
    ensures
        r == apply_line(fields_of(*old(opts)), line@) is Some,
        r ==> with_fields(*final(opts), apply_line(fields_of(*old(opts)), line@)->0),
        !r ==> *final(opts) == *old(opts),
        final(opts).n_seeding_points == old(opts).n_seeding_points,
        final(opts).seeding_point_calculation_step_size == old(
            opts,
        ).seeding_point_calculation_step_size,
{
    let k_sizes: [u8; 7] = [115, 105, 122, 101, 115, 58, 32];
    let k_endian: [u8; 8] = [101, 110, 100, 105, 97, 110, 58, 32];
    let k_data_file: [u8; 11] = [100, 97, 116, 97, 32, 102, 105, 108, 101, 58, 32];
    let little: [u8; 6] = [108, 105, 116, 116, 108, 101];
    assert(k_sizes@ =~= sizes_key());
    assert(k_endian@ =~= endian_key());
    assert(k_data_file@ =~= data_file_key());
    assert(little@ =~= little_word());
    if has_prefix(line, k_sizes.as_slice()) {
        let rest = vstd::slice::slice_subrange(line, 7, line.len());
        assert(rest@ =~= line@.skip(7));
        match parse_sizes(rest) {
            None => false,
            Some((w, h, d)) => {
                opts.width = w;
                opts.height = h;
                opts.depth = d;
                true
            },
        }
    } else if has_prefix(line, k_endian.as_slice()) {
        let rest = vstd::slice::slice_subrange(line, 8, line.len());
        assert(rest@ =~= line@.skip(8));
        opts.little_endian = same_bytes(rest, little.as_slice());
        true
    } else if has_prefix(line, k_data_file.as_slice()) && line.len() > 11 {
        opts.file = Some(tail_of(line, 11));
        true
    } else {
        true
    }
}

impl Options {
    /// Reads the options a header gives from its lines: grid extents, byte order and
    /// data file, with defaults for everything else.
    pub fn from_header_file(lines: &Vec<String>) -> (r: Result<Options, HeaderError>)
        ensures
            r is Ok <==> apply_lines(default_fields(), utf8_lines(lines@)) is Some,
            r matches Ok(o) ==> {
                &&& with_fields(o, apply_lines(default_fields(), utf8_lines(lines@))->0)
                &&& o.n_seeding_points == DEFAULT_SEEDING_POINTS
                &&& o.seeding_point_calculation_step_size == DEFAULT_SEEDING_STEP
            },
            r matches Err(e) ==> e == HeaderError::MalformedSizes,
    {
        let ghost all = utf8_lines(lines@);
        let mut opts = Options::default();
        let mut i: usize = 0;
        assert(all.skip(0) =~= all);
        while i < lines.len()
            invariant
                i <= lines@.len(),
                all == utf8_lines(lines@),
                apply_lines(default_fields(), all) == apply_lines(fields_of(opts), all.skip(i as int)),
                opts.n_seeding_points == DEFAULT_SEEDING_POINTS,
                opts.seeding_point_calculation_step_size == DEFAULT_SEEDING_STEP,
            decreases lines@.len() - i,
        {
            let line = lines[i].as_str().as_bytes();
            assert(line@ == all[i as int]);
            assert(all.skip(i as int).drop_first() =~= all.skip(i + 1));
            let ghost before = fields_of(opts);
            if !apply_header_line(&mut opts, line) {
                return Err(HeaderError::MalformedSizes);
            }
            assert(fields_of(opts) == apply_line(before, line@)->0);
            i = i + 1;
        }
        assert(all.skip(i as int) =~= Seq::<Seq<u8>>::empty());
        Ok(opts)
    }

    /// Reads the options a header text gives: grid extents, byte order and data file,
    /// with defaults for everything else.
    pub fn load_opt_from_header_string(header: &str) -> (r: Result<Options, HeaderError>)
        ensures
            r is Ok <==> apply_lines(default_fields(), split_lines(vstd::utf8::encode_utf8(header@))) is Some,
            r matches Ok(o) ==> {
                &&& with_fields(o, apply_lines(default_fields(), split_lines(vstd::utf8::encode_utf8(header@)))->0)
                &&& o.n_seeding_points == DEFAULT_SEEDING_POINTS
                &&& o.seeding_point_calculation_step_size == DEFAULT_SEEDING_STEP
            },
            r matches Err(e) ==> e == HeaderError::MalformedSizes,
    {
        let bytes = header.as_bytes();
        let ghost all = split_lines(bytes@);
        assert(bytes@ == vstd::utf8::encode_utf8(header@));
        let mut opts = Options::default();
        let mut pos: usize = 0;
        assert(bytes@.skip(0) =~= bytes@);
        while pos < bytes.len()
            invariant
                pos <= bytes@.len(),
                bytes@ == vstd::utf8::encode_utf8(header@),
                all == split_lines(bytes@),
                apply_lines(default_fields(), all) == apply_lines(
                    fields_of(opts),
                    split_lines(bytes@.skip(pos as int)),
                ),
                opts.n_seeding_points == DEFAULT_SEEDING_POINTS,
                opts.seeding_point_calculation_step_size == DEFAULT_SEEDING_STEP,
            decreases bytes@.len() - pos,
        {
            let ghost rest = bytes@.skip(pos as int);
            let mut end = pos;
            while end < bytes.len() && bytes[end] != 10
                invariant
                    pos <= end <= bytes@.len(),
                    forall|i: int| pos <= i < end ==> #[trigger] bytes@[i] != 10,
                decreases bytes@.len() - end,
            {
                end = end + 1;
            }
            let stop = if end > pos && bytes[end - 1] == 13 { end - 1 } else { end };
            let line = vstd::slice::slice_subrange(bytes, pos, stop);
            proof {
                lemma_line_len(rest);
                let n = line_len(rest) as int;
                if end - pos < n {
                    assert(rest[end - pos] == bytes@[end as int]);
                }
                if end - pos > n {
                    assert(rest[n] == bytes@[pos + n]);
                }
                assert(end - pos == n);
                assert(rest.take(n) =~= bytes@.subrange(pos as int, end as int));
                assert(line@ =~= strip_cr(rest.take(n)));
                if n < rest.len() {
                    assert(rest.skip(n + 1) =~= bytes@.skip(end + 1));
                }
            }
            let ghost before = fields_of(opts);
            let ghost lines_here = split_lines(rest);
            assert(lines_here.drop_first() =~= if end < bytes@.len() {
                split_lines(bytes@.skip(end + 1))
            } else {
                seq![]
            });
            assert(lines_here.len() > 0 && lines_here[0] == line@);
            if !apply_header_line(&mut opts, line) {
                return Err(HeaderError::MalformedSizes);
            }
            assert(fields_of(opts) == apply_line(before, line@)->0);
            if end < bytes.len() {
                pos = end + 1;
            } else {
                assert(bytes@.skip(end as int) =~= Seq::<u8>::empty());
                pos = end;
            }
        }
        assert(bytes@.skip(pos as int) =~= Seq::<u8>::empty());
        Ok(opts)
    }
}

} // verus!
