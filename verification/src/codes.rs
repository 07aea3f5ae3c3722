//! The fixed, ordered list of codes, and the passage between a code's
//! place in the list and its text.

use crate::error::RaidError;
use vstd::prelude::*;
use vstd::string::StrSliceExecFns;

verus! {

/// How many codes there are: all strings of four decimal digits.
pub const CODE_COUNT: u32 = 10_000;

/// What a sequence of strings says, string by string.
pub open spec fn texts(strings: Seq<String>) -> Seq<Seq<char>> {
    strings.map_values(|s: String| s@)
}

/// The texts of the codes at the given places of `list`, in the order of
/// `indices`.
pub open spec fn code_texts(list: Seq<Seq<char>>, indices: Seq<u32>) -> Seq<Seq<char>> {
    indices.map_values(|i: u32| list[i as int])
}

/// The codes in the order in which they are tried. A code's index is its
/// place in this list.
pub struct CodeList {
    codes: Vec<String>,
}

impl View for CodeList {
    type V = Seq<Seq<char>>;

    closed spec fn view(&self) -> Seq<Seq<char>> {
        texts(self.codes@)
    }
}

impl CodeList {
    /// The list has `CODE_COUNT` codes and none of them twice, so that
    /// index and text determine each other.
    pub open spec fn wf(&self) -> bool {
        &&& self@.len() == CODE_COUNT
        &&& self@.no_duplicates()
    }

    /// Accepts a list of exactly `CODE_COUNT` codes that are all different,
    /// and no other.
    pub fn new(codes: Vec<String>) -> (r: Option<CodeList>)
        ensures
            match r {
                Some(list) => list.wf() && list@ == texts(codes@),
                None => texts(codes@).len() != CODE_COUNT || !texts(codes@).no_duplicates(),
            },
    {
        let n = codes.len();
        if n != CODE_COUNT as usize {
            return None;
        }
        let ghost all = texts(codes@);
        let mut i: usize = 0;
        while i < n
            invariant
                n == codes.len(),
                all == texts(codes@),
                i <= n,
                forall|a: int, b: int| 0 <= a < b < i ==> all[a] != all[b],
            decreases n - i,
        {
            let mut j: usize = 0;
            while j < i
                invariant
                    n == codes.len(),
                    all == texts(codes@),
                    i < n,
                    j <= i,
                    forall|a: int| 0 <= a < j ==> all[a] != all[i as int],
                decreases i - j,
            {
                if codes[j] == codes[i] {
                    assert(all[j as int] == all[i as int]);
                    return None;
                }
                j += 1;
            }
            i += 1;
        }
        assert(all.no_duplicates()) by {
            assert forall|a: int, b: int| 0 <= a < all.len() && 0 <= b < all.len() && a != b implies all[a]
                != all[b] by {
                if a < b {
                    assert(all[a] != all[b]);
                } else {
                    assert(all[b] != all[a]);
                }
            }
        }
        Some(CodeList { codes })
    }
}

/// `end` is where the first field of `line` ends: at the first `;` of the
/// line, or at its end where it has none.
pub open spec fn is_field_end(line: Seq<char>, end: int) -> bool {
    &&& 0 <= end <= line.len()
    &&& forall|i: int| 0 <= i < end ==> line[i] != ';'
    &&& end == line.len() || line[end] == ';'
}

/// The first field of a line of the code file: the code.
pub open spec fn spec_first_field(line: Seq<char>) -> Seq<char> {
    line.take(choose|end: int| is_field_end(line, end))
}

/// The codes that the lines of the code file give, line by line.
pub open spec fn first_fields(lines: Seq<String>) -> Seq<Seq<char>> {
    lines.map_values(|line: String| spec_first_field(line@))
}

/// The first field of a line of the code file, in which `;` parts the
/// fields: the text before the first `;`, and the whole line where it has
/// none.
pub fn first_field(line: &str) -> (field: &str)
    ensures
        field@ == spec_first_field(line@),
{
    let len = line.unicode_len();
    let mut end: usize = 0;
    while end < len && line.get_char(end) != ';'
        invariant
            len == line@.len(),
            end <= len,
            forall|i: int| 0 <= i < end ==> line@[i] != ';',
        decreases len - end,
    {
        end += 1;
    }
    proof {
        assert(is_field_end(line@, end as int));
        let chosen = choose|e: int| is_field_end(line@, e);
        if chosen < end {
            assert(line@[chosen] != ';');
        }
        if end < chosen {
            assert(line@[end as int] != ';');
        }
    }
    line.substring_char(0, end)
}

impl CodeList {
    /// The code list that the lines of the code file give: the first field
    /// of each line is a code. Accepted as `new` accepts the codes.
    pub fn from_lines(lines: &Vec<String>) -> (r: Option<CodeList>)
        ensures
            match r {
                Some(list) => list.wf() && list@ == first_fields(lines@),
                None => first_fields(lines@).len() != CODE_COUNT || !first_fields(
                    lines@,
                ).no_duplicates(),
            },
    {
        let mut codes: Vec<String> = Vec::new();
        let mut i: usize = 0;
        while i < lines.len()
            invariant
                i <= lines.len(),
                codes.len() == i,
                forall|a: int| 0 <= a < i ==> (#[trigger] codes@[a])@ == spec_first_field(lines@[a]@),
            decreases lines.len() - i,
        {
            codes.push(first_field(lines[i].as_str()).to_owned());
            i += 1;
        }
        assert(texts(codes@) =~= first_fields(lines@));
        CodeList::new(codes)
    }
}

/// The text of the code at the given index.
pub fn code_index_to_string(codes: &CodeList, code_idx: u32) -> (code: &String)
    requires
        codes.wf(),
        code_idx < CODE_COUNT,
    ensures
        code@ == codes@[code_idx as int],
{
    &codes.codes[code_idx as usize]
}

/// The index of the code with the given text. A text that the list does
/// not hold is refused as an unknown code.
pub fn string_to_code_index(codes: &CodeList, code_str: &str) -> (r: Result<u32, RaidError>)
    requires
        codes.wf(),
    ensures
        match r {
            Ok(code_idx) => code_idx < CODE_COUNT && codes@[code_idx as int] == code_str@,
            Err(e) => e == RaidError::UnknownCode && !codes@.contains(code_str@),
        },
{
    let wanted = code_str.to_owned();
    let mut i: u32 = 0;
    while i < CODE_COUNT
        invariant
            codes.wf(),
            wanted@ == code_str@,
            i <= CODE_COUNT,
            forall|a: int| 0 <= a < i ==> codes@[a] != code_str@,
        decreases CODE_COUNT - i,
    {
        if codes.codes[i as usize] == wanted {
            return Ok(i);
        }
        i += 1;
    }
    Err(RaidError::UnknownCode)
}

} // verus!
