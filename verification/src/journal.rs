//! The journal: pre-images of every change, and which of them were committed.

use crate::apply::undo_choice;
use crate::errors::{refusal, refusal_next, ErrorKind, ErrorView, VcError, VcResult};
use crate::order::{
    bytes_less, law_stable_sort_orders_and_keeps_items, lemma_same_members, list_less, rank_less,
    ranks_ascend, stable_sort, stable_sorted, views, Ranked,
};
use crate::paths::{
    extension, has_extension, last_dot, split_name, stem, text_rank, TreePath, DOT,
};
use crate::text::{
    all_digits, begins_with, bytes_begin_with, dec, dec_text, digits_value, lemma_decimal_digits,
    parse_u64, parsed_unsigned, same_bytes, slice_copy, unsigned_digits, utf8_text,
};
use vstd::prelude::*;
use vstd::string::*;
use vstd::utf8::*;

verus! {

/// The state of one file before and after a journaled change.
#[derive(Debug, Clone)]
pub struct FileImage {
    pub path: TreePath,
    pub pre_b64: String,
    pub pre_hash: String,
    pub post_hash: String,
}

/// What a [`FileImage`] says.
pub struct ImageView {
    pub path: Seq<u8>,
    pub pre_b64: Seq<char>,
    pub pre_hash: Seq<char>,
    pub post_hash: Seq<char>,
}

impl View for FileImage {
    type V = ImageView;

    open spec fn view(&self) -> ImageView {
        ImageView {
            path: self.path@,
            pre_b64: self.pre_b64@,
            pre_hash: self.pre_hash@,
            post_hash: self.post_hash@,
        }
    }
}

/// One journaled change.
#[derive(Debug, Clone)]
pub struct JournalEntry {
    pub id: String,
    pub plan_id: String,
    pub created_unix: u64,
    pub files: Vec<FileImage>,
}

/// What a [`JournalEntry`] says.
pub struct EntryView {
    pub id: Seq<char>,
    pub plan_id: Seq<char>,
    pub created_unix: u64,
    pub files: Seq<ImageView>,
}

impl View for JournalEntry {
    type V = EntryView;

    open spec fn view(&self) -> EntryView {
        EntryView {
            id: self.id@,
            plan_id: self.plan_id@,
            created_unix: self.created_unix,
            files: views(self.files@),
        }
    }
}

/// One name in the journal directory.
#[derive(Debug, Clone)]
pub struct DirEntry {
    pub name: Vec<u8>,
    /// Whether the name is a regular file.
    pub is_file: bool,
}

/// What a [`DirEntry`] says.
pub struct NameView {
    pub name: Seq<u8>,
    pub is_file: bool,
}

impl View for DirEntry {
    type V = NameView;

    open spec fn view(&self) -> NameView {
        NameView { name: self.name@, is_file: self.is_file }
    }
}

/// The bytes of `json`.
pub open spec fn json_ext() -> Seq<u8> {
    seq![106u8, 115, 111, 110]
}

/// The bytes of `j-`.
pub open spec fn id_prefix() -> Seq<u8> {
    seq![106u8, 45]
}

/// The bytes of `.committed`.
pub open spec fn marker_suffix() -> Seq<u8> {
    seq![46u8, 99, 111, 109, 109, 105, 116, 116, 101, 100]
}

/// Whether a file name ends in the extension `json`.
pub open spec fn is_json_name(name: Seq<u8>) -> bool {
    has_extension(name) && extension(name) == json_ext()
}

/// The number in a name of the form `j-<number>.json`.
pub open spec fn entry_number(name: Seq<u8>) -> Option<nat> {
    if is_json_name(name) && valid_utf8(stem(name)) && begins_with(stem(name), id_prefix()) {
        parsed_unsigned(stem(name).skip(2), u64::MAX as nat)
    } else {
        None
    }
}

/// The highest number among the journal's names, 0 when there is none.
pub open spec fn highest_number(dir: Seq<NameView>) -> nat
    decreases dir.len(),
{
    if dir.len() == 0 {
        0
    } else {
        let before = highest_number(dir.drop_last());
        match entry_number(dir.last().name) {
            Some(n) => if n > before {
                n
            } else {
                before
            },
            None => before,
        }
    }
}

/// `n` in decimal, filled with zeros to six digits.
pub open spec fn dec6(n: nat) -> Seq<char> {
    if dec(n).len() >= 6 {
        dec(n)
    } else {
        Seq::new((6 - dec(n).len()) as nat, |i: int| '0') + dec(n)
    }
}

/// The journal id with number `n`.
pub open spec fn id_of_number(n: nat) -> Seq<char> {
    "j-"@ + dec6(n)
}

/// Whether a name is that of a journal entry: `j-*.json`.
pub open spec fn is_entry_name(name: Seq<u8>) -> bool {
    is_json_name(name) && valid_utf8(stem(name)) && begins_with(stem(name), id_prefix())
}

/// Whether the directory holds the commit marker of the entry with this stem.
pub open spec fn has_marker(dir: Seq<NameView>, stem_bytes: Seq<u8>) -> bool {
    exists|i: int|
        0 <= i < dir.len() && (#[trigger] dir[i]).is_file && dir[i].name == stem_bytes
            + marker_suffix()
}

/// The ids among `names` whose commit marker is there (`committed`) or is not.
pub open spec fn ids_with(dir: Seq<NameView>, names: Seq<NameView>, committed: bool) -> Seq<
    Seq<char>,
>
    decreases names.len(),
{
    if names.len() == 0 {
        seq![]
    } else {
        let before = ids_with(dir, names.drop_last(), committed);
        let name = names.last().name;
        if is_entry_name(name) && has_marker(dir, stem(name)) == committed {
            before.push(decode_utf8(stem(name)))
        } else {
            before
        }
    }
}

/// The journal's ids, ascending: those committed, or those not.
pub open spec fn journal_ids(dir: Seq<NameView>, committed: bool) -> Seq<Seq<char>> {
    stable_sorted::<String>(ids_with(dir, dir, committed))
}

/// Whether a name ends in the extension `json`.
pub fn is_json(name: &[u8]) -> (yes: bool)
    ensures
        yes == is_json_name(name@),
{
    let json: Vec<u8> = vec![106, 115, 111, 110];
    assert(json@ =~= json_ext());
    match split_name(name) {
        (_, Some(ext)) => same_bytes(ext.as_slice(), json.as_slice()),
        _ => false,
    }
}

/// The id in a journal entry's name.
fn entry_id(name: &[u8]) -> (id: Option<(Vec<u8>, String)>)
    ensures
        match id {
            Some((bytes, text)) => is_entry_name(name@) && bytes@ == stem(name@) && text@
                == decode_utf8(stem(name@)),
            None => !is_entry_name(name@),
        },
{
    let prefix: Vec<u8> = vec![106, 45];
    assert(prefix@ =~= id_prefix());
    if !is_json(name) {
        return None;
    }
    let (bytes, _) = split_name(name);
    if !bytes_begin_with(bytes.as_slice(), prefix.as_slice()) {
        return None;
    }
    let copy = slice_copy(bytes.as_slice(), 0, bytes.len());
    assert(copy@ =~= bytes@);
    match utf8_text(copy) {
        Some(text) => Some((bytes, text)),
        None => None,
    }
}

/// What reading and parsing a journal entry's file gave.
#[derive(Debug)]
pub enum EntryRead {
    /// There is no such file.
    Missing,
    /// It could not be read, for this reason.
    Unreadable(String),
    /// It is no journal entry, for this reason.
    Unparsed(String),
    Parsed(JournalEntry),
}

/// What [`Journal::load`] answers.
pub open spec fn loaded_entry(id: Seq<char>, read: EntryRead) -> Result<JournalEntry, ErrorView> {
    match read {
        EntryRead::Missing => Err(
            refusal_next(ErrorKind::NotFound, "no journal entry "@ + id, "vc doctor"@),
        ),
        EntryRead::Unreadable(why) => Err(refusal(ErrorKind::Io, why@)),
        EntryRead::Unparsed(why) => Err(
            refusal(ErrorKind::Malformed, "journal "@ + id + ": "@ + why@),
        ),
        EntryRead::Parsed(e) => Ok(e),
    }
}

/// The journal.
pub struct Journal;

impl Journal {
    /// The highest number among the journal's names.
    pub fn highest(dir: &Vec<DirEntry>) -> (max: u64)
        ensures
            max == highest_number(views(dir@)),
    {
        let mut max: u64 = 0;
        let mut i: usize = 0;
        let ghost dv = views(dir@);
        assert(dv.take(0) =~= Seq::<NameView>::empty());
        while i < dir.len()
            invariant
                i <= dir.len(),
                dv == views(dir@),
                max == highest_number(dv.take(i as int)),
            decreases dir.len() - i,
        {
            proof {
                assert(dv.take(i + 1).drop_last() =~= dv.take(i as int));
                assert(dv.take(i + 1).last() == dir@[i as int]@);
            }
            match entry_id(dir[i].name.as_slice()) {
                Some((bytes, _)) => {
                    assert(begins_with(bytes@, id_prefix()));
                    let digits = slice_copy(bytes.as_slice(), 2, bytes.len());
                    assert(digits@ =~= bytes@.skip(2));
                    match parse_u64(digits.as_slice()) {
                        Some(n) => {
                            if n > max {
                                max = n;
                            }
                        },
                        None => {},
                    }
                },
                None => {},
            }
            i = i + 1;
        }
        assert(dv.take(dir.len() as int) =~= dv);
        max
    }

    /// The id of the next entry: one above the highest number, `j-` and at least six
    /// digits. The highest number has to leave room for it.
    pub fn next_id(dir: &Vec<DirEntry>) -> (id: String)
        requires
            highest_number(views(dir@)) < u64::MAX,
        ensures
            id@ == id_of_number(highest_number(views(dir@)) + 1),
    {
        let n: u64 = Journal::highest(dir) + 1;
        let digits = dec_text(n);
        let mut id: String = "j-".to_owned();
        let len: usize = digits.as_str().unicode_len();
        let mut fill: usize = len;
        let ghost zeros = Seq::<char>::empty();
        while fill < 6
            invariant
                len <= fill,
                fill <= 6 || fill == len,
                id@ == "j-"@ + zeros,
                zeros == Seq::new((fill - len) as nat, |i: int| '0'),
            decreases 6 - fill,
        {
            id.push('0');
            proof {
                zeros = zeros.push('0');
                assert(zeros =~= Seq::new((fill + 1 - len) as nat, |i: int| '0'));
                assert(id@ =~= "j-"@ + zeros);
            }
            fill = fill + 1;
        }
        id.append(digits.as_str());
        assert(id@ =~= id_of_number(n as nat));
        id
    }

    /// Whether the directory holds the commit marker of the entry with this stem.
    fn marked(dir: &Vec<DirEntry>, stem_bytes: &Vec<u8>) -> (yes: bool)
        ensures
            yes == has_marker(views(dir@), stem_bytes@),
    {
        let mut wanted: Vec<u8> = slice_copy(stem_bytes.as_slice(), 0, stem_bytes.len());
        let suffix: Vec<u8> = vec![46, 99, 111, 109, 109, 105, 116, 116, 101, 100];
        assert(suffix@ =~= marker_suffix());
        wanted.extend_from_slice(suffix.as_slice());
        assert(wanted@ =~= stem_bytes@ + marker_suffix());
        let mut i: usize = 0;
        while i < dir.len()
            invariant
                i <= dir.len(),
                wanted@ == stem_bytes@ + marker_suffix(),
                forall|k: int|
                    0 <= k < i ==> !((#[trigger] views(dir@)[k]).is_file && views(dir@)[k].name
                        == stem_bytes@ + marker_suffix()),
            decreases dir.len() - i,
        {
            if dir[i].is_file && same_bytes(dir[i].name.as_slice(), wanted.as_slice()) {
                assert(views(dir@)[i as int].is_file);
                return true;
            }
            i = i + 1;
        }
        false
    }

    /// The entry with this id, from what its file holds.
    pub fn load(id: &str, read: EntryRead) -> (r: VcResult<JournalEntry>)
        ensures
            match (loaded_entry(id@, read), r) {
                (Ok(e), Ok(f)) => f == e,
                (Err(e), Err(f)) => f@ == e,
                _ => false,
            },
    {
        match read {
            EntryRead::Missing => {
                let mut m: String = "no journal entry ".to_owned();
                m.append(id);
                Err(VcError::new(ErrorKind::NotFound, m).with_next("vc doctor".to_owned()))
            },
            EntryRead::Unreadable(why) => Err(VcError::new(ErrorKind::Io, why)),
            EntryRead::Unparsed(why) => {
                let mut m: String = "journal ".to_owned();
                m.append(id);
                m.append(": ");
                m.append(why.as_str());
                Err(VcError::new(ErrorKind::Malformed, m))
            },
            EntryRead::Parsed(e) => Ok(e),
        }
    }

    /// The ids of the entries, ascending: the committed ones, and the others.
    pub fn scan(dir: &Vec<DirEntry>) -> (ids: (Vec<String>, Vec<String>))
        ensures
            views(ids.0@) == journal_ids(views(dir@), true),
            views(ids.1@) == journal_ids(views(dir@), false),
    {
        let mut committed: Vec<String> = Vec::new();
        let mut uncommitted: Vec<String> = Vec::new();
        let mut i: usize = 0;
        let ghost dv = views(dir@);
        proof {
            assert(dv.take(0) =~= Seq::<NameView>::empty());
            assert(views(committed@) =~= Seq::<Seq<char>>::empty());
            assert(views(uncommitted@) =~= Seq::<Seq<char>>::empty());
        }
        while i < dir.len()
            invariant
                i <= dir.len(),
                dv == views(dir@),
                views(committed@) == ids_with(dv, dv.take(i as int), true),
                views(uncommitted@) == ids_with(dv, dv.take(i as int), false),
            decreases dir.len() - i,
        {
            let ghost c = views(committed@);
            let ghost u = views(uncommitted@);
            proof {
                assert(dv.take(i + 1).drop_last() =~= dv.take(i as int));
                assert(dv.take(i + 1).last() == dir@[i as int]@);
            }
            match entry_id(dir[i].name.as_slice()) {
                Some((bytes, text)) => {
                    if Journal::marked(dir, &bytes) {
                        committed.push(text);
                        assert(views(committed@) =~= c.push(text@));
                    } else {
                        uncommitted.push(text);
                        assert(views(uncommitted@) =~= u.push(text@));
                    }
                },
                None => {},
            }
            i = i + 1;
        }
        assert(dv.take(dir.len() as int) =~= dv);
        (stable_sort(committed), stable_sort(uncommitted))
    }

    /// The highest committed id.
    pub fn last_committed(dir: &Vec<DirEntry>) -> (id: Option<String>)
        ensures
            match id {
                Some(s) => journal_ids(views(dir@), true).len() > 0 && s@ == journal_ids(
                    views(dir@),
                    true,
                ).last(),
                None => journal_ids(views(dir@), true).len() == 0,
            },
    {
        let (mut committed, _) = Journal::scan(dir);
        let ghost c = views(committed@);
        assert(c.len() == committed@.len());
        let last = committed.pop();
        proof {
            if last is Some {
                assert(c.last() == last->0@);
            }
        }
        last
    }
}

proof fn lemma_dec_digits(n: nat)
    ensures
        is_ascii_chars(dec(n)),
        all_digits(encode_utf8(dec(n))),
        digits_value(encode_utf8(dec(n))) == n,
        dec(n).len() > 0,
{
    lemma_decimal_digits(n);
}

proof fn lemma_leading_zeros(zeros: Seq<u8>, s: Seq<u8>)
    requires
        forall|i: int| 0 <= i < zeros.len() ==> #[trigger] zeros[i] == 48,
    ensures
        digits_value(zeros + s) == digits_value(s),
    decreases zeros.len() + s.len(),
{
    if s.len() > 0 {
        assert((zeros + s).drop_last() =~= zeros + s.drop_last());
        assert((zeros + s).last() == s.last());
        lemma_leading_zeros(zeros, s.drop_last());
    } else if zeros.len() > 0 {
        assert((zeros + s).drop_last() =~= zeros.drop_last() + s);
        assert((zeros + s).last() == zeros.last());
        lemma_leading_zeros(zeros.drop_last(), s);
    }
}

/// The number of an id that is spelled in a name.
proof fn lemma_id_number(n: nat)
    requires
        n <= u64::MAX,
    ensures
        encode_utf8(id_of_number(n)).len() >= 2,
        parsed_unsigned(encode_utf8(id_of_number(n)).skip(2), u64::MAX as nat) == Some(n),
{
    let digits = dec(n);
    let padded = dec6(n);
    let id = id_of_number(n);
    reveal_strlit("j-");
    lemma_dec_digits(n);
    is_ascii_chars_encode_utf8(digits);
    assert(is_ascii_chars(padded));
    is_ascii_chars_encode_utf8(padded);
    assert(is_ascii_chars(id));
    is_ascii_chars_encode_utf8(id);
    let bytes = encode_utf8(id).skip(2);
    assert(bytes =~= encode_utf8(padded));
    let fill = (padded.len() - digits.len()) as nat;
    let zeros = Seq::new(fill, |i: int| 48u8);
    assert(bytes =~= zeros + encode_utf8(digits));
    lemma_leading_zeros(zeros, encode_utf8(digits));
    assert(all_digits(bytes));
    assert(bytes[0] != 43);
    assert(unsigned_digits(bytes) == bytes);
}

proof fn lemma_highest(dir: Seq<NameView>, k: int)
    requires
        0 <= k < dir.len(),
    ensures
        entry_number(dir[k].name) matches Some(n) ==> n <= highest_number(dir),
    decreases dir.len(),
{
    if k < dir.len() - 1 {
        lemma_highest(dir.drop_last(), k);
        assert(dir.drop_last()[k] == dir[k]);
    }
}

/// The id of the next entry is not that of any entry in the journal.
pub proof fn law_next_id_is_new(dir: Seq<NameView>, k: int)
    requires
        0 <= k < dir.len(),
        highest_number(dir) < u64::MAX,
    ensures
        is_entry_name(dir[k].name) ==> decode_utf8(stem(dir[k].name)) != id_of_number(
            highest_number(dir) + 1,
        ),
{
    let name = dir[k].name;
    let n = highest_number(dir) + 1;
    lemma_highest(dir, k);
    lemma_id_number(n);
    if is_entry_name(name) && decode_utf8(stem(name)) == id_of_number(n) {
        decode_utf8_encode_utf8(stem(name));
        assert(entry_number(name) == Some(n));
    }
}

/// The name of the file of an entry.
pub open spec fn entry_file(id: Seq<char>) -> Seq<u8> {
    encode_utf8(id) + seq![DOT] + json_ext()
}

/// The journal's names once the entry `id` was written and committed.
pub open spec fn with_commit(dir: Seq<NameView>, id: Seq<char>) -> Seq<NameView> {
    dir.push(NameView { name: entry_file(id), is_file: true }).push(
        NameView { name: encode_utf8(id) + marker_suffix(), is_file: true },
    )
}

/// Whether every entry in the journal has an id of the form that [`Journal::next_id`] gives.
pub open spec fn ids_are_numbers(dir: Seq<NameView>) -> bool {
    forall|k: int|
        0 <= k < dir.len() && is_entry_name((#[trigger] dir[k]).name) ==> exists|m: nat|
            m <= u64::MAX && decode_utf8(stem(dir[k].name)) == #[trigger] id_of_number(m)
}

proof fn lemma_less_before_last(a: Seq<u8>, b: Seq<u8>, x: u8, y: u8)
    requires
        a.len() == b.len(),
        bytes_less(a, b) || (a == b && x < y),
    ensures
        bytes_less(a.push(x), b.push(y)),
    decreases a.len(),
{
    if a.len() > 0 {
        assert(a.push(x).skip(1) =~= a.skip(1).push(x));
        assert(b.push(y).skip(1) =~= b.skip(1).push(y));
        if a[0] == b[0] {
            lemma_less_before_last(a.skip(1), b.skip(1), x, y);
        }
    }
}

/// Numbers of as many digits are in order as texts when they are as numbers.
proof fn lemma_digits_in_order(a: Seq<u8>, b: Seq<u8>)
    requires
        a.len() == b.len(),
        all_digits(a),
        all_digits(b),
    ensures
        digits_value(a) < digits_value(b) ==> bytes_less(a, b),
        digits_value(a) == digits_value(b) ==> a == b,
    decreases a.len(),
{
    if a.len() > 0 {
        let (ar, br) = (a.drop_last(), b.drop_last());
        lemma_digits_in_order(ar, br);
        assert(a =~= ar.push(a.last()));
        assert(b =~= br.push(b.last()));
        assert(48 <= a[a.len() - 1] <= 57 && 48 <= b[b.len() - 1] <= 57);
        if digits_value(a) < digits_value(b) {
            assert(digits_value(ar) <= digits_value(br));
            lemma_less_before_last(ar, br, a.last(), b.last());
        }
    } else {
        assert(a =~= b);
    }
}

proof fn lemma_six_digits(n: nat)
    requires
        n <= 999999,
    ensures
        dec6(n).len() == 6,
{
    let a = n / 10;
    let b = a / 10;
    let c = b / 10;
    let d = c / 10;
    let e = d / 10;
    assert(e <= 9 && d <= 99 && c <= 999 && b <= 9999 && a <= 99999);
    assert(dec(e).len() == 1);
    assert(dec(d).len() <= 2);
    assert(dec(c).len() <= 3);
    assert(dec(b).len() <= 4);
    assert(dec(a).len() <= 5);
    assert(dec(n).len() <= 6);
}

/// The bytes of an id.
proof fn lemma_id_bytes(n: nat)
    requires
        n <= 999999,
    ensures
        ({
            let bytes = encode_utf8(id_of_number(n));
            &&& bytes.len() == 8
            &&& bytes.take(2) == id_prefix()
            &&& all_digits(bytes.skip(2))
            &&& digits_value(bytes.skip(2)) == n
        }),
{
    let digits = dec(n);
    let padded = dec6(n);
    let id = id_of_number(n);
    reveal_strlit("j-");
    lemma_six_digits(n);
    lemma_dec_digits(n);
    is_ascii_chars_encode_utf8(digits);
    assert(is_ascii_chars(padded));
    is_ascii_chars_encode_utf8(padded);
    assert(is_ascii_chars(id));
    is_ascii_chars_encode_utf8(id);
    let bytes = encode_utf8(id);
    assert(bytes.take(2) =~= id_prefix());
    assert(bytes.skip(2) =~= encode_utf8(padded));
    let zeros = Seq::new((6 - digits.len()) as nat, |i: int| 48u8);
    assert(bytes.skip(2) =~= zeros + encode_utf8(digits));
    lemma_leading_zeros(zeros, encode_utf8(digits));
}

/// Ids are in order as their numbers are, as long as the numbers have six digits.
proof fn lemma_ids_in_order(m: nat, n: nat)
    requires
        m < n <= 999999,
    ensures
        rank_less(text_rank(id_of_number(m)), text_rank(id_of_number(n))),
{
    lemma_id_bytes(m);
    lemma_id_bytes(n);
    let a = encode_utf8(id_of_number(m));
    let b = encode_utf8(id_of_number(n));
    lemma_digits_in_order(a.skip(2), b.skip(2));
    assert(a[0] == a.take(2)[0] && a[1] == a.take(2)[1]);
    assert(b[0] == b.take(2)[0] && b[1] == b.take(2)[1]);
    assert(a.skip(1).skip(1) =~= a.skip(2));
    assert(b.skip(1).skip(1) =~= b.skip(2));
    assert(a.skip(1)[0] == b.skip(1)[0]);
    assert(bytes_less(a.skip(1), b.skip(1)));
    assert(bytes_less(a, b));
    assert(a != b);
    let la = text_rank(id_of_number(m)).list;
    let lb = text_rank(id_of_number(n)).list;
    assert(la[0] == a && lb[0] == b);
    assert(list_less(la, lb));
}

/// What the names of an entry's file and marker are taken for.
proof fn lemma_commit_names(id: Seq<char>, n: nat)
    requires
        id == id_of_number(n),
        n <= 999999,
    ensures
        is_entry_name(entry_file(id)),
        stem(entry_file(id)) == encode_utf8(id),
        !is_entry_name(encode_utf8(id) + marker_suffix()),
{
    let bytes = encode_utf8(id);
    lemma_id_bytes(n);
    encode_utf8_valid_utf8(id);
    let name = entry_file(id);
    assert(name.len() == 13);
    assert(name[12] == 110 && name[11] == 111 && name[10] == 115 && name[9] == 106 && name[8]
        == DOT);
    reveal_with_fuel(last_dot, 6);
    assert(last_dot(name, 13) == 8);
    assert(name.skip(9) =~= json_ext());
    assert(name.take(8) =~= bytes);
    assert(begins_with(bytes, id_prefix()));
    let marker = bytes + marker_suffix();
    assert(marker.len() == 18);
    assert(marker[17] == 100 && marker[16] == 101 && marker[15] == 116 && marker[14] == 116
        && marker[13] == 105 && marker[12] == 109 && marker[11] == 109 && marker[10] == 111
        && marker[9] == 99 && marker[8] == DOT);
    reveal_with_fuel(last_dot, 11);
    assert(last_dot(marker, 18) == 8);
    assert(marker.skip(9).len() == 9);
}

proof fn lemma_ids_members(
    dir: Seq<NameView>,
    names: Seq<NameView>,
    committed: bool,
    x: Seq<char>,
)
    requires
        ids_with(dir, names, committed).contains(x),
    ensures
        exists|k: int|
            0 <= k < names.len() && is_entry_name((#[trigger] names[k]).name) && decode_utf8(
                stem(names[k].name),
            ) == x,
    decreases names.len(),
{
    let ids = ids_with(dir, names, committed);
    if names.len() > 0 {
        let rest = names.drop_last();
        let before = ids_with(dir, rest, committed);
        let i = ids.index_of(x);
        if i < before.len() {
            assert(before[i] == x);
            lemma_ids_members(dir, rest, committed, x);
            let k = choose|k: int|
                0 <= k < rest.len() && is_entry_name((#[trigger] rest[k]).name) && decode_utf8(
                    stem(rest[k].name),
                ) == x;
            assert(names[k] == rest[k]);
        } else {
            assert(names[names.len() - 1] == names.last());
        }
    }
}

/// An undo without an id takes back the last change: once an entry with the next id is
/// committed, it is the one chosen. Ids are ordered as text, which is the order of their
/// numbers as long as these have six digits.
pub proof fn law_the_last_change_is_undone_first(dir: Seq<NameView>)
    requires
        ids_are_numbers(dir),
        highest_number(dir) < 999999,
    ensures
        ({
            let id = id_of_number(highest_number(dir) + 1);
            undo_choice(None, journal_ids(with_commit(dir, id), true)) == Ok::<
                Seq<char>,
                ErrorView,
            >(id)
        }),
{
    let n = highest_number(dir) + 1;
    let id = id_of_number(n);
    let after = with_commit(dir, id);
    lemma_commit_names(id, n);
    encode_utf8_decode_utf8(id);
    let with_entry = after.drop_last();
    assert(with_entry =~= dir.push(NameView { name: entry_file(id), is_file: true }));
    assert(with_entry.drop_last() =~= dir);
    assert(after[after.len() - 1].name == encode_utf8(id) + marker_suffix());
    assert(has_marker(after, encode_utf8(id)));
    let before = ids_with(after, dir, true);
    let ids = ids_with(after, after, true);
    assert(ids == ids_with(after, with_entry, true));
    assert(ids == before.push(id));
    let sorted = stable_sorted::<String>(ids);
    law_stable_sort_orders_and_keeps_items::<String>(ids);
    let last = sorted[sorted.len() - 1];
    assert(ids[ids.len() - 1] == id);
    assert(ids.contains(id));
    lemma_same_members(ids, sorted, id);
    assert(sorted.contains(last));
    lemma_same_members(ids, sorted, last);
    if last != id {
        let i = ids.index_of(last);
        assert(before[i] == last);
        lemma_ids_members(after, dir, true, last);
        let k = choose|k: int|
            0 <= k < dir.len() && is_entry_name((#[trigger] dir[k]).name) && decode_utf8(
                stem(dir[k].name),
            ) == last;
        let m = choose|m: nat|
            m <= u64::MAX && decode_utf8(stem(dir[k].name)) == #[trigger] id_of_number(m);
        lemma_id_number(m);
        decode_utf8_encode_utf8(stem(dir[k].name));
        lemma_highest(dir, k);
        assert(entry_number(dir[k].name) == Some(m));
        lemma_ids_in_order(m, n);
        let q = sorted.index_of(id);
        assert(!rank_less(String::rank_at(sorted[sorted.len() - 1]), String::rank_at(sorted[q])));
    }
}

/// The highest number of a journal is the highest: no entry has a higher one, and one has it,
/// unless no entry has a number.
pub proof fn law_the_highest_number_is_the_highest(dir: Seq<NameView>)
    ensures
        forall|k: int|
            0 <= k < dir.len() && entry_number((#[trigger] dir[k]).name) is Some ==> entry_number(
                dir[k].name,
            )->0 <= highest_number(dir),
        highest_number(dir) == 0 || exists|k: int|
            0 <= k < dir.len() && entry_number((#[trigger] dir[k]).name) == Some(
                highest_number(dir),
            ),
    decreases dir.len(),
{
    if dir.len() > 0 {
        let rest = dir.drop_last();
        law_the_highest_number_is_the_highest(rest);
        assert(dir[dir.len() - 1] == dir.last());
        assert forall|k: int|
            0 <= k < dir.len() && entry_number((#[trigger] dir[k]).name) is Some implies entry_number(
            dir[k].name,
        )->0 <= highest_number(dir) by {
            if k < rest.len() {
                assert(rest[k] == dir[k]);
            }
        }
        if highest_number(dir) != 0 && highest_number(dir) == highest_number(rest) {
            let k = choose|k: int|
                0 <= k < rest.len() && entry_number((#[trigger] rest[k]).name) == Some(
                    highest_number(rest),
                );
            assert(dir[k] == rest[k]);
        }
    }
}

/// The names of the entries whose commit marker is there, or is not.
pub open spec fn entries_marked(dir: Seq<NameView>, committed: bool) -> Seq<NameView> {
    dir.filter(
        |e: NameView| is_entry_name(e.name) && has_marker(dir, stem(e.name)) == committed,
    )
}

proof fn lemma_ids_exactly(dir: Seq<NameView>, names: Seq<NameView>, committed: bool)
    ensures
        ids_with(dir, names, committed) == names.filter(
            |e: NameView| is_entry_name(e.name) && has_marker(dir, stem(e.name)) == committed,
        ).map_values(|e: NameView| decode_utf8(stem(e.name))),
    decreases names.len(),
{
    let keep = |e: NameView| is_entry_name(e.name) && has_marker(dir, stem(e.name)) == committed;
    let id = |e: NameView| decode_utf8(stem(e.name));
    reveal(Seq::filter);
    if names.len() > 0 {
        lemma_ids_exactly(dir, names.drop_last(), committed);
        assert(ids_with(dir, names, committed) =~= names.filter(keep).map_values(id));
    } else {
        assert(names.filter(keep).map_values(id) =~= Seq::<Seq<char>>::empty());
    }
}

/// A scan of the journal lists every entry once, ascending: as committed when its marker is
/// there, and as pending when it is not. Nothing else is listed.
pub proof fn law_a_scan_lists_every_entry_once(dir: Seq<NameView>, committed: bool)
    ensures
        journal_ids(dir, committed).to_multiset() == entries_marked(dir, committed).map_values(
            |e: NameView| decode_utf8(stem(e.name)),
        ).to_multiset(),
        journal_ids(dir, committed).len() == entries_marked(dir, committed).len(),
        ranks_ascend::<String>(journal_ids(dir, committed)),
        entries_marked(dir, true).len() + entries_marked(dir, false).len() == dir.filter(
            |e: NameView| is_entry_name(e.name),
        ).len(),
{
    lemma_ids_exactly(dir, dir, committed);
    law_stable_sort_orders_and_keeps_items::<String>(ids_with(dir, dir, committed));
    lemma_marked_or_not(dir, dir);
}

proof fn lemma_marked_or_not(dir: Seq<NameView>, names: Seq<NameView>)
    ensures
        names.filter(
            |e: NameView| is_entry_name(e.name) && has_marker(dir, stem(e.name)) == true,
        ).len() + names.filter(
            |e: NameView| is_entry_name(e.name) && has_marker(dir, stem(e.name)) == false,
        ).len() == names.filter(|e: NameView| is_entry_name(e.name)).len(),
    decreases names.len(),
{
    reveal(Seq::filter);
    if names.len() > 0 {
        lemma_marked_or_not(dir, names.drop_last());
    }
}

/// An entry is handed on exactly when it was read, and as it was read.
pub proof fn law_an_entry_is_loaded_exactly_as_read(id: Seq<char>, read: EntryRead)
    ensures
        match read {
            EntryRead::Parsed(e) => loaded_entry(id, read) == Ok::<JournalEntry, ErrorView>(e),
            _ => loaded_entry(id, read) is Err,
        },
{
}

/// An entry is committed exactly when a file stands in the journal whose name is the entry's
/// with the marker's ending; anything else of that name commits nothing.
pub proof fn law_only_a_marker_file_commits(dir: Seq<NameView>, id: Seq<u8>)
    ensures
        has_marker(dir, id) <==> dir.contains(
            NameView { name: id + marker_suffix(), is_file: true },
        ),
{
    let marker = NameView { name: id + marker_suffix(), is_file: true };
    if has_marker(dir, id) {
        let i = choose|i: int|
            0 <= i < dir.len() && (#[trigger] dir[i]).is_file && dir[i].name == id
                + marker_suffix();
        assert(dir[i] == marker);
    }
    if dir.contains(marker) {
        let i = dir.index_of(marker);
        assert(dir[i].is_file);
    }
}

} // verus!
