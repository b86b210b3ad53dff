//! The initial ramdisk: a text header that gives the number and total size
//! of the files, one section per file between `File Entry:` and
//! `File Entry End:` with its name, size and offset, and the files' bytes
//! between `Data:` and `Data End:`.
use vstd::prelude::*;
use vstd::string::StringSliceAdditionalSpecFns;
use vstd::utf8::{decode_utf8, valid_utf8};

verus! {

/// `pat` occurs in `data` at `p`.
pub open spec fn matches_at(data: Seq<u8>, pat: Seq<u8>, p: int) -> bool {
    &&& 0 <= p
    &&& p + pat.len() <= data.len()
    &&& data.subrange(p, p + pat.len()) == pat
}

/// The first position from `from` on where the non-empty `pat` occurs in `data`.
pub open spec fn first_match(data: Seq<u8>, pat: Seq<u8>, from: int) -> Option<int>
    decreases data.len() - from,
{
    if from < 0 || pat.len() == 0 || from + pat.len() > data.len() {
        None
    } else if matches_at(data, pat, from) {
        Some(from)
    } else {
        first_match(data, pat, from + 1)
    }
}

/// What `first_match` finds is an occurrence, and the first one.
pub proof fn lemma_first_match(data: Seq<u8>, pat: Seq<u8>, from: int)
    ensures
        first_match(data, pat, from) matches Some(p) ==> {
            &&& from <= p
            &&& matches_at(data, pat, p)
            &&& forall|q: int| from <= q < p ==> !matches_at(data, pat, q)
        },
    decreases data.len() - from,
{
    if from < 0 || pat.len() == 0 || from + pat.len() > data.len() {
    } else if matches_at(data, pat, from) {
    } else {
        lemma_first_match(data, pat, from + 1);
    }
}

/// Whether `pat` occurs in `data` at `p`.
fn matches_here(data: &[u8], pat: &[u8], p: usize) -> (r: bool)
    requires
        p + pat.len() <= data.len(),
    ensures
        r == matches_at(data@, pat@, p as int),
{
    let mut j: usize = 0;
    while j < pat.len()
        invariant
            p + pat.len() <= data.len(),
            0 <= j <= pat.len(),
            forall|k: int| 0 <= k < j ==> data@[p + k] == pat@[k],
        decreases pat.len() - j,
    {
        if data[p + j] != pat[j] {
            proof {
                assert(data@.subrange(p as int, p + pat.len())[j as int] != pat@[j as int]);
            }
            return false;
        }
        j = j + 1;
    }
    proof {
        assert(data@.subrange(p as int, p + pat.len()) =~= pat@);
    }
    true
}

/// The first position from `from` on where `pat` occurs in `data`.
fn find(data: &[u8], pat: &[u8], from: usize) -> (r: Option<usize>)
    requires
        pat.len() > 0,
    ensures
        r.is_some() <==> first_match(data@, pat@, from as int).is_some(),
        r.is_some() ==> first_match(data@, pat@, from as int) == Some(r.unwrap() as int),
        r.is_some() ==> from <= r.unwrap() && r.unwrap() + pat.len() <= data.len(),
{
    proof {
        lemma_first_match(data@, pat@, from as int);
    }
    if pat.len() > data.len() || from > data.len() - pat.len() {
        return None;
    }
    let last = data.len() - pat.len();
    let mut i: usize = from;
    while i <= last
        invariant
            last == data.len() - pat.len(),
            pat.len() > 0,
            from <= i,
            first_match(data@, pat@, from as int) == first_match(data@, pat@, i as int),
        decreases last + 1 - i,
    {
        if matches_here(data, pat, i) {
            return Some(i);
        }
        i = i + 1;
    }
    None
}

/// The range of the value that follows the first `key` in `data`, up to the
/// first `terminator` after it.
pub open spec fn value_range(data: Seq<u8>, key: Seq<u8>, terminator: Seq<u8>) -> Option<(int, int)> {
    match first_match(data, key, 0) {
        None => None,
        Some(k) => match first_match(data, terminator, k + key.len()) {
            None => None,
            Some(e) => Some((k + key.len(), e)),
        },
    }
}

/// The range of the value that follows the first `key` in `data`.
fn extract_value(data: &[u8], key: &[u8], terminator: &[u8]) -> (r: Option<(usize, usize)>)
    requires
        key@.len() > 0,
        terminator@.len() > 0,
    ensures
        r.is_some() <==> value_range(data@, key@, terminator@).is_some(),
        r.is_some() ==> value_range(data@, key@, terminator@) == Some((r.unwrap().0 as int, r.unwrap().1 as int)),
        r.is_some() ==> r.unwrap().0 <= r.unwrap().1 <= data.len(),
{
    proof {
        lemma_first_match(data@, key@, 0);
    }
    let key_pos = match find(data, key, 0) {
        Some(p) => p,
        None => return None,
    };
    let value_start = key_pos + key.len();
    proof {
        lemma_first_match(data@, terminator@, value_start as int);
    }
    match find(data, terminator, value_start) {
        Some(e) => Some((value_start, e)),
        None => None,
    }
}

/// The ranges of the sections of `data` from `start` on, each between the
/// first `open` and the first `close` after it; `None` where an `open` has no
/// `close` after it.
pub open spec fn sections_from(data: Seq<u8>, open: Seq<u8>, close: Seq<u8>, start: int) -> Option<Seq<(int, int)>>
    decreases data.len() - start,
{
    match first_match(data, open, start) {
        None => Some(Seq::empty()),
        Some(p) => {
            let section_start = p + open.len();
            match first_match(data, close, section_start) {
                None => None,
                Some(e) => {
                    let next = e + close.len();
                    if start < next <= data.len() {
                        match sections_from(data, open, close, next) {
                            None => None,
                            Some(rest) => Some(seq![(section_start, e)] + rest),
                        }
                    } else {
                        None
                    }
                },
            }
        },
    }
}

/// `acc` followed by what `rest` holds, if it holds anything.
pub open spec fn prepend(acc: Seq<(int, int)>, rest: Option<Seq<(int, int)>>) -> Option<Seq<(int, int)>> {
    match rest {
        None => None,
        Some(r) => Some(acc + r),
    }
}

/// The ranges of all sections of `data` between `open` and `close`.
fn extract_sections(data: &[u8], open: &[u8], close: &[u8]) -> (r: Option<Vec<(usize, usize)>>)
    requires
        open@.len() > 0,
        close@.len() > 0,
    ensures
        match sections_from(data@, open@, close@, 0) {
            Some(s) => r.is_some() && r.unwrap()@.len() == s.len() && forall|i: int| 0 <= i < s.len() ==> {
                &&& (#[trigger] r.unwrap()@[i]).0 == s[i].0
                &&& r.unwrap()@[i].1 == s[i].1
                &&& 0 <= s[i].0 <= s[i].1 <= data.len()
            },
            None => r.is_none(),
        },
{
    let mut sections: Vec<(usize, usize)> = Vec::new();
    let mut start: usize = 0;
    let ghost acc: Seq<(int, int)> = Seq::empty();
    loop
        invariant
            open@.len() > 0,
            close@.len() > 0,
            0 <= start <= data.len(),
            sections_from(data@, open@, close@, 0) == prepend(acc, sections_from(data@, open@, close@, start as int)),
            sections@.len() == acc.len(),
            forall|i: int| 0 <= i < acc.len() ==> {
                &&& (#[trigger] sections@[i]).0 == acc[i].0
                &&& sections@[i].1 == acc[i].1
                &&& 0 <= acc[i].0 <= acc[i].1 <= data.len()
            },
        decreases data.len() - start,
    {
        proof {
            lemma_first_match(data@, open@, start as int);
        }
        let p = match find(data, open, start) {
            Some(p) => p,
            None => {
                proof {
                    assert(acc + Seq::<(int, int)>::empty() =~= acc);
                }
                let r = Some(sections);
                return r;
            },
        };
        let section_start = p + open.len();
        proof {
            lemma_first_match(data@, close@, section_start as int);
        }
        let e = match find(data, close, section_start) {
            Some(e) => e,
            None => return None,
        };
        let next = e + close.len();
        proof {
            let rest = sections_from(data@, open@, close@, next as int);
            let item = (section_start as int, e as int);
            assert(prepend(acc, sections_from(data@, open@, close@, start as int)) == prepend(acc.push(item), rest)) by {
                match rest {
                    Some(r) => {
                        assert(acc + (seq![item] + r) =~= acc.push(item) + r);
                    },
                    None => {},
                }
            }
            acc = acc.push(item);
        }
        let ghost before = sections@;
        sections.push((section_start, e));
        proof {
            assert forall|i: int| 0 <= i < acc.len() implies {
                &&& (#[trigger] sections@[i]).0 == acc[i].0
                &&& sections@[i].1 == acc[i].1
                &&& 0 <= acc[i].0 <= acc[i].1 <= data.len()
            } by {
                if i < acc.len() - 1 {
                    assert(sections@[i] == before[i]);
                }
            }
        }
        start = next;
    }
}

/// What `str::trim` leaves of `s`.
pub uninterp spec fn trim_of(s: Seq<char>) -> Seq<char>;

/// What `str::to_lowercase` makes of `s`.
pub uninterp spec fn lower_of(s: Seq<char>) -> Seq<char>;

/// Relies on `String::from_utf8`: it succeeds exactly on valid UTF-8, and
/// the string holds the characters that the bytes encode.
#[verifier::external_body]
fn utf8_string(bytes: Vec<u8>) -> (r: Option<String>)
    ensures
        r.is_some() <==> valid_utf8(bytes@),
        r.is_some() ==> r.unwrap()@ == decode_utf8(bytes@),
{
    String::from_utf8(bytes).ok()
}

/// Relies on `str::trim`: what is left depends on the characters alone.
#[verifier::external_body]
fn trim(s: &str) -> (r: &str)
    ensures
        r@ == trim_of(s@),
{
    s.trim()
}

/// Relies on `str::to_lowercase`: the result depends on the characters alone.
#[verifier::external_body]
fn lowercase(s: &str) -> (r: String)
    ensures
        r@ == lower_of(s@),
{
    s.to_lowercase()
}

/// Relies on `usize`'s `FromStr`: an optional `+` and then only decimal
/// digits, of a value that fits.
#[verifier::external_body]
fn parse_usize(s: &str) -> (r: Option<usize>)
    ensures
        r == decimal_usize(s@),
{
    s.parse::<usize>().ok()
}

/// The value of the decimal digits `s`.
pub open spec fn digits_value(s: Seq<char>) -> int
    decreases s.len(),
{
    if s.len() == 0 {
        0
    } else {
        digits_value(s.drop_last()) * 10 + (s.last() as int - '0' as int)
    }
}

/// `s` is a non-empty run of decimal digits.
pub open spec fn is_digits(s: Seq<char>) -> bool {
    s.len() > 0 && forall|i: int| 0 <= i < s.len() ==> '0' <= #[trigger] s[i] <= '9'
}

/// The `usize` that `s` writes: an optional `+` and then decimal digits.
pub open spec fn decimal_usize(s: Seq<char>) -> Option<usize> {
    let d = if s.len() > 0 && s[0] == '+' {
        s.subrange(1, s.len() as int)
    } else {
        s
    };
    if is_digits(d) && digits_value(d) <= usize::MAX {
        Some(digits_value(d) as usize)
    } else {
        None
    }
}

/// The number that the bytes `b` of a field write, blanks around it allowed.
pub open spec fn field_number(b: Seq<u8>) -> Option<usize> {
    if valid_utf8(b) {
        decimal_usize(trim_of(decode_utf8(b)))
    } else {
        None
    }
}

/// A copy of the bytes of `data` from `a` up to `b`.
fn copy_range(data: &[u8], a: usize, b: usize) -> (r: Vec<u8>)
    requires
        a <= b <= data.len(),
    ensures
        r@ == data@.subrange(a as int, b as int),
{
    let mut r: Vec<u8> = Vec::new();
    let mut i: usize = a;
    while i < b
        invariant
            a <= i <= b <= data.len(),
            r@ == data@.subrange(a as int, i as int),
        decreases b - i,
    {
        r.push(data[i]);
        proof {
            assert(r@ =~= data@.subrange(a as int, i + 1));
        }
        i = i + 1;
    }
    r
}

/// The number that the field of `data` from `a` up to `b` writes.
fn parse_number(data: &[u8], a: usize, b: usize) -> (r: Option<usize>)
    requires
        a <= b <= data.len(),
    ensures
        r == field_number(data@.subrange(a as int, b as int)),
{
    let bytes = copy_range(data, a, b);
    match utf8_string(bytes) {
        Some(s) => parse_usize(trim(s.as_str())),
        None => None,
    }
}

/// The header of the ramdisk: how many files it holds and their total size.
#[derive(Clone, Copy, Debug, PartialEq, Eq, Structural)]
pub struct InitrdMetadata {
    pub num_files: usize,
    pub total_files_size: usize,
}

pub open spec fn num_files_key() -> Seq<u8> {
    "Number Of Files:".spec_bytes()
}

pub open spec fn total_size_key() -> Seq<u8> {
    "Total Files Size:".spec_bytes()
}

pub open spec fn newline() -> Seq<u8> {
    "\n".spec_bytes()
}

/// The number that the value after `key` writes, up to the end of its line.
pub open spec fn number_after(data: Seq<u8>, key: Seq<u8>) -> Option<usize> {
    match value_range(data, key, newline()) {
        Some((a, b)) => field_number(data.subrange(a, b)),
        None => None,
    }
}

/// The header that `data` holds: both numbers must be there and readable.
pub open spec fn metadata_of(data: Seq<u8>) -> Option<InitrdMetadata> {
    if value_range(data, num_files_key(), newline()).is_none() || value_range(data, total_size_key(), newline()).is_none() {
        None
    } else {
        match (number_after(data, num_files_key()), number_after(data, total_size_key())) {
            (Some(n), Some(t)) => Some(InitrdMetadata { num_files: n, total_files_size: t }),
            _ => None,
        }
    }
}

/// Reads the header of the ramdisk `data`.
pub fn parse_initrd_metadata(data: &[u8]) -> (r: Option<InitrdMetadata>)
    ensures
        r == metadata_of(data@),
{
    let num_files_key = "Number Of Files:".as_bytes();
    let total_files_size_key = "Total Files Size:".as_bytes();
    let newline = "\n".as_bytes();
    proof {
        reveal_strlit("Number Of Files:");
        reveal_strlit("Total Files Size:");
        reveal_strlit("\n");
        vstd::string::is_ascii_spec_bytes("Number Of Files:");
        vstd::string::is_ascii_spec_bytes("Total Files Size:");
        vstd::string::is_ascii_spec_bytes("\n");
    }
    let (a, b) = match extract_value(data, num_files_key, newline) {
        Some(v) => v,
        None => return None,
    };
    let (c, d) = match extract_value(data, total_files_size_key, newline) {
        Some(v) => v,
        None => return None,
    };
    let num_files = match parse_number(data, a, b) {
        Some(n) => n,
        None => return None,
    };
    let total_files_size = match parse_number(data, c, d) {
        Some(n) => n,
        None => return None,
    };
    Some(InitrdMetadata { num_files, total_files_size })
}

/// A file of the ramdisk: its name, and its size and offset in the data section.
pub struct InitrdFileEntry {
    pub name: String,
    pub size: usize,
    pub offset: usize,
}

/// A file entry with its name as characters.
pub struct EntryModel {
    pub name: Seq<char>,
    pub size: usize,
    pub offset: usize,
}

impl View for InitrdFileEntry {
    type V = EntryModel;

    open spec fn view(&self) -> EntryModel {
        EntryModel { name: self.name@, size: self.size, offset: self.offset }
    }
}

pub open spec fn entry_start() -> Seq<u8> {
    "File Entry:".spec_bytes()
}

pub open spec fn entry_end() -> Seq<u8> {
    "File Entry End:".spec_bytes()
}

pub open spec fn name_key() -> Seq<u8> {
    "Name:".spec_bytes()
}

pub open spec fn size_key() -> Seq<u8> {
    "Size:".spec_bytes()
}

pub open spec fn offset_key() -> Seq<u8> {
    "Offset:".spec_bytes()
}

/// The entry that the section `sec` describes: its name, size and offset
/// must all be there, the name in UTF-8 (blanks around it dropped) and the
/// numbers readable.
pub open spec fn entry_of(sec: Seq<u8>) -> Option<EntryModel> {
    match (value_range(sec, name_key(), newline()), value_range(sec, size_key(), newline()), value_range(sec, offset_key(), newline())) {
        (Some(n), Some(sz), Some(off)) => {
            let name = sec.subrange(n.0, n.1);
            if !valid_utf8(name) {
                None
            } else {
                match (field_number(sec.subrange(sz.0, sz.1)), field_number(sec.subrange(off.0, off.1))) {
                    (Some(size), Some(offset)) => Some(EntryModel { name: trim_of(decode_utf8(name)), size, offset }),
                    _ => None,
                }
            }
        },
        _ => None,
    }
}

/// The entries that the sections `secs` of `data` describe, in order; `None`
/// where one of them describes none.
pub open spec fn entries_of(data: Seq<u8>, secs: Seq<(int, int)>) -> Option<Seq<EntryModel>>
    decreases secs.len(),
{
    if secs.len() == 0 {
        Some(Seq::empty())
    } else {
        let last = secs.last();
        match (entries_of(data, secs.drop_last()), entry_of(data.subrange(last.0, last.1))) {
            (Some(es), Some(e)) => Some(es.push(e)),
            _ => None,
        }
    }
}

/// The file entries that the ramdisk `data` lists.
pub open spec fn file_entries_of(data: Seq<u8>) -> Option<Seq<EntryModel>> {
    match sections_from(data, entry_start(), entry_end(), 0) {
        None => None,
        Some(secs) => entries_of(data, secs),
    }
}

/// Reads the entry that the section `sec` describes.
fn parse_entry(sec: &[u8]) -> (r: Option<InitrdFileEntry>)
    ensures
        r.is_some() <==> entry_of(sec@).is_some(),
        r.is_some() ==> r.unwrap()@ == entry_of(sec@).unwrap(),
{
    let name_key = "Name:".as_bytes();
    let size_key = "Size:".as_bytes();
    let offset_key = "Offset:".as_bytes();
    let newline = "\n".as_bytes();
    proof {
        reveal_strlit("Name:");
        reveal_strlit("Size:");
        reveal_strlit("Offset:");
        reveal_strlit("\n");
        vstd::string::is_ascii_spec_bytes("Name:");
        vstd::string::is_ascii_spec_bytes("Size:");
        vstd::string::is_ascii_spec_bytes("Offset:");
        vstd::string::is_ascii_spec_bytes("\n");
    }
    let (na, nb) = match extract_value(sec, name_key, newline) {
        Some(v) => v,
        None => return None,
    };
    let (sa, sb) = match extract_value(sec, size_key, newline) {
        Some(v) => v,
        None => return None,
    };
    let (oa, ob) = match extract_value(sec, offset_key, newline) {
        Some(v) => v,
        None => return None,
    };
    let name = match utf8_string(copy_range(sec, na, nb)) {
        Some(s) => trim(s.as_str()).to_owned(),
        None => return None,
    };
    let size = match parse_number(sec, sa, sb) {
        Some(n) => n,
        None => return None,
    };
    let offset = match parse_number(sec, oa, ob) {
        Some(n) => n,
        None => return None,
    };
    Some(InitrdFileEntry { name, size, offset })
}

/// Reads the file entries of the ramdisk `data`.
pub fn parse_initrd_file_entries(data: &[u8]) -> (r: Option<Vec<InitrdFileEntry>>)
    ensures
        r.is_some() <==> file_entries_of(data@).is_some(),
        r.is_some() ==> r.unwrap()@.map_values(|e: InitrdFileEntry| e@) == file_entries_of(data@).unwrap(),
{
    let open = "File Entry:".as_bytes();
    let close = "File Entry End:".as_bytes();
    proof {
        reveal_strlit("File Entry:");
        reveal_strlit("File Entry End:");
        vstd::string::is_ascii_spec_bytes("File Entry:");
        vstd::string::is_ascii_spec_bytes("File Entry End:");
    }
    let sections = match extract_sections(data, open, close) {
        Some(s) => s,
        None => return None,
    };
    let ghost secs = sections_from(data@, entry_start(), entry_end(), 0).unwrap();
    assert(open@ == entry_start() && close@ == entry_end());
    assert(sections_from(data@, entry_start(), entry_end(), 0) == Some(secs));
    let mut file_entries: Vec<InitrdFileEntry> = Vec::new();
    let mut i: usize = 0;
    while i < sections.len()
        invariant
            sections_from(data@, entry_start(), entry_end(), 0) == Some(secs),
            secs.len() == sections@.len(),
            forall|k: int| 0 <= k < secs.len() ==> {
                &&& (#[trigger] sections@[k]).0 == secs[k].0
                &&& sections@[k].1 == secs[k].1
                &&& 0 <= secs[k].0 <= secs[k].1 <= data.len()
            },
            0 <= i <= secs.len(),
            entries_of(data@, secs.take(i as int)) == Some(file_entries@.map_values(|e: InitrdFileEntry| e@)),
        decreases secs.len() - i,
    {
        let (a, b) = sections[i];
        let sec = copy_range(data, a, b);
        proof {
            assert(secs.take(i as int + 1).drop_last() =~= secs.take(i as int));
            assert(secs.take(i as int + 1).last() == secs[i as int]);
        }
        let entry = match parse_entry(sec.as_slice()) {
            Some(e) => e,
            None => {
                proof {
                    let t = secs.take(i as int + 1);
                    assert(sec@ == data@.subrange(t.last().0, t.last().1));
                    assert(entry_of(data@.subrange(t.last().0, t.last().1)).is_none());
                    assert(entries_of(data@, t).is_none());
                    lemma_entries_prefix_none(data@, secs, i as int + 1);
                    assert(entries_of(data@, secs).is_none());
                    assert(file_entries_of(data@) == entries_of(data@, secs));
                }
                return None;
            },
        };
        let ghost before = file_entries@;
        file_entries.push(entry);
        proof {
            assert(file_entries@.map_values(|e: InitrdFileEntry| e@) =~= before.map_values(|e: InitrdFileEntry| e@).push(entry@));
        }
        i = i + 1;
    }
    proof {
        assert(secs.take(i as int) =~= secs);
    }
    Some(file_entries)
}

/// Where the entries of a prefix of the sections cannot be read, those of
/// all sections cannot either.
proof fn lemma_entries_prefix_none(data: Seq<u8>, secs: Seq<(int, int)>, n: int)
    requires
        0 <= n <= secs.len(),
        entries_of(data, secs.take(n)).is_none(),
    ensures
        entries_of(data, secs).is_none(),
    decreases secs.len() - n,
{
    if n < secs.len() {
        assert(secs.take(n + 1).drop_last() =~= secs.take(n));
        lemma_entries_prefix_none(data, secs, n + 1);
    } else {
        assert(secs.take(n) =~= secs);
    }
}

/// The range between the first `open` and the first `close` of `data`, or
/// `None` where one is missing or the close comes before the open ends.
pub open spec fn section_range(data: Seq<u8>, open: Seq<u8>, close: Seq<u8>) -> Option<(int, int)> {
    match (first_match(data, open, 0), first_match(data, close, 0)) {
        (Some(s), Some(e)) => if s + open.len() <= e {
            Some((s + open.len(), e))
        } else {
            None
        },
        _ => None,
    }
}

/// The range between the first `open` and the first `close` of `data`.
fn extract_section(data: &[u8], open: &[u8], close: &[u8]) -> (r: Option<(usize, usize)>)
    requires
        open@.len() > 0,
        close@.len() > 0,
    ensures
        r.is_some() <==> section_range(data@, open@, close@).is_some(),
        r.is_some() ==> section_range(data@, open@, close@) == Some((r.unwrap().0 as int, r.unwrap().1 as int)),
        r.is_some() ==> r.unwrap().0 <= r.unwrap().1 <= data.len(),
{
    let start_pos = match find(data, open, 0) {
        Some(p) => p,
        None => return None,
    };
    let end_pos = match find(data, close, 0) {
        Some(p) => p,
        None => return None,
    };
    if start_pos + open.len() <= end_pos {
        Some((start_pos + open.len(), end_pos))
    } else {
        None
    }
}

pub open spec fn data_start() -> Seq<u8> {
    "Data:".spec_bytes()
}

pub open spec fn data_end() -> Seq<u8> {
    "Data End:".spec_bytes()
}

/// The range of the files' bytes in the ramdisk `data`.
fn extract_data_section(data: &[u8]) -> (r: Option<(usize, usize)>)
    ensures
        r.is_some() <==> section_range(data@, data_start(), data_end()).is_some(),
        r.is_some() ==> section_range(data@, data_start(), data_end()) == Some((r.unwrap().0 as int, r.unwrap().1 as int)),
        r.is_some() ==> r.unwrap().0 <= r.unwrap().1 <= data.len(),
{
    proof {
        reveal_strlit("Data:");
        reveal_strlit("Data End:");
        vstd::string::is_ascii_spec_bytes("Data:");
        vstd::string::is_ascii_spec_bytes("Data End:");
    }
    extract_section(data, "Data:".as_bytes(), "Data End:".as_bytes())
}

/// The names of the files, in the order of the entries.
pub fn get_file_names(file_entries: &Vec<InitrdFileEntry>) -> (r: Vec<String>)
    ensures
        r@.len() == file_entries@.len(),
        forall|i: int| 0 <= i < r@.len() ==> (#[trigger] r@[i])@ == file_entries@[i].name@,
{
    let mut file_names: Vec<String> = Vec::new();
    let mut i: usize = 0;
    while i < file_entries.len()
        invariant
            0 <= i <= file_entries@.len(),
            file_names@.len() == i,
            forall|k: int| 0 <= k < i ==> (#[trigger] file_names@[k])@ == file_entries@[k].name@,
        decreases file_entries@.len() - i,
    {
        file_names.push(file_entries[i].name.clone());
        i = i + 1;
    }
    file_names
}

/// The contents of the first entry from `i` on whose name matches `key`
/// once blanks around it are dropped and it is lower-cased, and whose bytes
/// lie inside `section` and are valid UTF-8.
pub open spec fn contents_from(entries: Seq<EntryModel>, section: Seq<u8>, key: Seq<char>, i: int) -> Option<Seq<char>>
    decreases entries.len() - i,
{
    if i < 0 || i >= entries.len() {
        None
    } else {
        let e = entries[i];
        let end = e.offset + e.size;
        if lower_of(trim_of(e.name)) == key && end <= section.len() && valid_utf8(section.subrange(e.offset as int, end)) {
            Some(decode_utf8(section.subrange(e.offset as int, end)))
        } else {
            contents_from(entries, section, key, i + 1)
        }
    }
}

/// The contents of the file called `name` (the case and the blanks around
/// the name do not matter) in the ramdisk `data` with entries `entries`.
pub open spec fn file_contents_of(entries: Seq<EntryModel>, data: Seq<u8>, name: Seq<char>) -> Option<Seq<char>> {
    match section_range(data, data_start(), data_end()) {
        None => None,
        Some((a, b)) => contents_from(entries, data.subrange(a, b), lower_of(trim_of(name)), 0),
    }
}

/// The contents of the file called `file_name`, whatever the case of the
/// letters and the blanks around the name; `None` where the ramdisk has no
/// data section or no entry of that name whose bytes lie in it as UTF-8.
pub fn get_file_contents(file_entries: &Vec<InitrdFileEntry>, data: &[u8], file_name: &str) -> (r: Option<String>)
    ensures
        r.is_some() <==> file_contents_of(file_entries@.map_values(|e: InitrdFileEntry| e@), data@, file_name@).is_some(),
        r.is_some() ==> r.unwrap()@ == file_contents_of(file_entries@.map_values(|e: InitrdFileEntry| e@), data@, file_name@).unwrap(),
{
    let ghost entries = file_entries@.map_values(|e: InitrdFileEntry| e@);
    let (ds, de) = match extract_data_section(data) {
        Some(r) => r,
        None => return None,
    };
    let ghost section = data@.subrange(ds as int, de as int);
    let key = lowercase(trim(file_name));
    let mut i: usize = 0;
    while i < file_entries.len()
        invariant
            entries == file_entries@.map_values(|e: InitrdFileEntry| e@),
            ds <= de <= data.len(),
            section_range(data@, data_start(), data_end()) == Some((ds as int, de as int)),
            section == data@.subrange(ds as int, de as int),
            key@ == lower_of(trim_of(file_name@)),
            0 <= i <= file_entries@.len(),
            contents_from(entries, section, key@, 0) == contents_from(entries, section, key@, i as int),
        decreases file_entries@.len() - i,
    {
        let entry = &file_entries[i];
        assert(entries[i as int] == entry@);
        let name = lowercase(trim(entry.name.as_str()));
        if name == key && entry.offset <= de - ds && entry.size <= de - ds - entry.offset {
            let start = ds + entry.offset;
            let end = start + entry.size;
            let bytes = copy_range(data, start, end);
            proof {
                assert(bytes@ =~= section.subrange(entry.offset as int, entry.offset + entry.size));
            }
            match utf8_string(bytes) {
                Some(text) => {
                    proof {
                        let e = entries[i as int];
                        assert(lower_of(trim_of(e.name)) == key@);
                        assert(e.offset + e.size <= section.len());
                        assert(contents_from(entries, section, key@, i as int) == Some(text@));
                        assert(file_contents_of(entries, data@, file_name@) == contents_from(entries, section, key@, 0));
                    }
                    return Some(text);
                },
                None => {},
            }
        }
        i = i + 1;
    }
    None
}

/// A ramdisk read into memory: its header, its entries and its bytes.
pub struct InitrdData {
    pub metadata: InitrdMetadata,
    pub file_entries: Vec<InitrdFileEntry>,
    pub data: Vec<u8>,
}

impl InitrdData {
    pub fn new(metadata: InitrdMetadata, file_entries: Vec<InitrdFileEntry>, data: Vec<u8>) -> (r: InitrdData)
        ensures
            r.metadata == metadata,
            r.file_entries@ == file_entries@,
            r.data@ == data@,
    {
        InitrdData { metadata, file_entries, data }
    }
}

/// Reads the ramdisk `data`: its header and its entries must both be readable.
pub fn parse_initrd(data: Vec<u8>) -> (r: Option<InitrdData>)
    ensures
        r.is_some() <==> metadata_of(data@).is_some() && file_entries_of(data@).is_some(),
        r.is_some() ==> {
            &&& r.unwrap().metadata == metadata_of(data@).unwrap()
            &&& r.unwrap().file_entries@.map_values(|e: InitrdFileEntry| e@) == file_entries_of(data@).unwrap()
            &&& r.unwrap().data@ == data@
        },
{
    let metadata = match parse_initrd_metadata(data.as_slice()) {
        Some(m) => m,
        None => return None,
    };
    let file_entries = match parse_initrd_file_entries(data.as_slice()) {
        Some(e) => e,
        None => return None,
    };
    Some(InitrdData::new(metadata, file_entries, data))
}

/// The number of files that the header gives.
pub fn number_of_files(initrd: &InitrdData) -> (r: usize)
    ensures
        r == initrd.metadata.num_files,
{
    initrd.metadata.num_files
}

/// The total size of the files that the header gives.
pub fn total_files_size(initrd: &InitrdData) -> (r: usize)
    ensures
        r == initrd.metadata.total_files_size,
{
    initrd.metadata.total_files_size
}

} // verus!
