use vstd::prelude::*;
use vstd::string::StrSliceExecFns;
use rand::Rng;

verus! {

/// Number of root name servers that the hints list.
pub const ROOT_SERVERS: u32 = 13;

/// Lines that `str::split('\n')` makes of `s`.
pub uninterp spec fn text_lines(s: Seq<char>) -> Seq<Seq<char>>;

/// Fields that `str::split_whitespace` makes of `s`.
pub uninterp spec fn whitespace_fields(s: Seq<char>) -> Seq<Seq<char>>;

pub open spec fn strings_view(v: Seq<String>) -> Seq<Seq<char>> {
    v.map_values(|x: String| x@)
}

/// Relies on `str::split` with `'\n'`: the result depends on the text alone.
#[verifier::external_body]
fn split_lines(text: &str) -> (r: Vec<String>)
    ensures
        strings_view(r@) == text_lines(text@),
{
    text.split('\n').map(|l| l.to_string()).collect()
}

/// Relies on `str::split_whitespace`: the result depends on the text alone.
#[verifier::external_body]
fn split_fields(line: &str) -> (r: Vec<String>)
    ensures
        strings_view(r@) == whitespace_fields(line@),
{
    line.split_whitespace().map(|f| f.to_string()).collect()
}

/// Relies on `rand::Rng::gen_range` over `0..count`: a value below `count`.
#[verifier::external_body]
fn pick_index(count: u32) -> (r: u32)
    requires
        count > 0,
    ensures
        r < count,
{
    rand::thread_rng().gen_range(0..count)
}

/// A root name server: its name without the trailing dot and its two addresses.
pub struct NamedRoot {
    pub domain: String,
    pub ipv4: String,
    pub ipv6: String,
}

/// `s` without its last character.
pub open spec fn without_last(s: Seq<char>) -> Seq<char> {
    if s.len() > 0 { s.drop_last() } else { s }
}

/// Name, IPv4 and IPv6 address of the entry whose marker line is `i`: the first field
/// of the next line and the fourth fields of the next two lines.
pub open spec fn entry_at(lines: Seq<Seq<char>>, i: int) -> (Seq<char>, Seq<char>, Seq<char>) {
    if i + 2 < lines.len() {
        let f4 = whitespace_fields(lines[i + 1]);
        let f6 = whitespace_fields(lines[i + 2]);
        if f4.len() >= 4 && f6.len() >= 4 {
            (without_last(f4[0]), f4[3], f6[3])
        } else {
            (seq![], seq![], seq![])
        }
    } else {
        (seq![], seq![], seq![])
    }
}

/// A line that opens a root entry.
pub open spec fn is_marker(line: Seq<char>) -> bool {
    line.len() > 0 && line[0] == '.'
}

/// The entry of the `index`-th marker line at or after line `i`, `seen` markers having
/// come before; each entry spans its marker and the two lines after it.
pub open spec fn root_entry(lines: Seq<Seq<char>>, i: int, index: nat, seen: nat) -> (
    Seq<char>,
    Seq<char>,
    Seq<char>,
)
    decreases lines.len() - i,
{
    if i < 0 || i >= lines.len() {
        (seq![], seq![], seq![])
    } else if is_marker(lines[i]) {
        if seen == index {
            entry_at(lines, i)
        } else if i + 3 >= lines.len() {
            (seq![], seq![], seq![])
        } else {
            root_entry(lines, i + 3, index, seen + 1)
        }
    } else {
        root_entry(lines, i + 1, index, seen)
    }
}

impl NamedRoot {
    pub open spec fn parts(&self) -> (Seq<char>, Seq<char>, Seq<char>) {
        (self.domain@, self.ipv4@, self.ipv6@)
    }

    /// An entry from the hints' fields; the name loses its last character, the dot
    /// that ends it there.
    pub fn new(domain: &str, ipv4: &str, ipv6: &str) -> (r: Self)
        ensures
            r.parts() == (without_last(domain@), ipv4@, ipv6@),
    {
        let n = domain.unicode_len();
        let name = if n > 0 { domain.substring_char(0, n - 1) } else { domain };
        NamedRoot { domain: name.to_owned(), ipv4: ipv4.to_owned(), ipv6: ipv6.to_owned() }
    }

    /// The `index`-th root server of the hints, split into lines; all fields empty
    /// where there is no such entry or it is incomplete.
    pub fn select_named_root(lines: &Vec<String>, index: u32) -> (r: Self)
        ensures
            r.parts() == root_entry(strings_view(lines@), 0, index as nat, 0),
    {
        proof {
            reveal_strlit("");
        }
        let ghost ls = strings_view(lines@);
        let mut i: usize = 0;
        let mut seen: u32 = 0;
        while i < lines.len()
            invariant
                ls == strings_view(lines@),
                seen <= index,
                root_entry(ls, 0, index as nat, 0) == root_entry(ls, i as int, index as nat, seen as nat),
            decreases lines@.len() - i,
        {
            assert(ls[i as int] == lines@[i as int]@);
            let line = lines[i].as_str();
            let marker = line.unicode_len() > 0 && line.get_char(0) == '.';
            if marker {
                if seen == index {
                    return Self::entry(lines, i);
                }
                seen = seen + 1;
                if lines.len() - i <= 3 {
                    proof {
                        reveal_strlit("");
                    }
                    return NamedRoot::new("", "", "");
                }
                i = i + 3;
            } else {
                i = i + 1;
            }
        }
        NamedRoot::new("", "", "")
    }

    fn entry(lines: &Vec<String>, i: usize) -> (r: Self)
        requires
            i < lines@.len(),
        ensures
            r.parts() == entry_at(strings_view(lines@), i as int),
    {
        proof {
            reveal_strlit("");
        }
        if lines.len() - i <= 2 {
            return NamedRoot::new("", "", "");
        }
        let f4 = split_fields(lines[i + 1].as_str());
        let f6 = split_fields(lines[i + 2].as_str());
        assert(strings_view(lines@)[i + 1] == lines@[i + 1]@);
        assert(strings_view(lines@)[i + 2] == lines@[i + 2]@);
        if f4.len() < 4 || f6.len() < 4 {
            return NamedRoot::new("", "", "");
        }
        assert(strings_view(f4@)[0] == f4@[0]@);
        assert(strings_view(f4@)[3] == f4@[3]@);
        assert(strings_view(f6@)[3] == f6@[3]@);
        NamedRoot::new(f4[0].as_str(), f4[3].as_str(), f6[3].as_str())
    }

    /// A root server picked at random among the hints' thirteen, from the text of
    /// the hints file.
    pub fn get_named_root(text: &str) -> (r: Self)
        ensures
            exists|k: nat| k < ROOT_SERVERS && r.parts() == root_entry(text_lines(text@), 0, k, 0),
    {
        let lines = split_lines(text);
        let index = pick_index(ROOT_SERVERS);
        Self::select_named_root(&lines, index)
    }
}

} // verus!
