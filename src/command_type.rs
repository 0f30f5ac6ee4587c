use vstd::prelude::*;
use vstd::string::StringSliceAdditionalSpecFns;

verus! {

/// The commands of the line protocol.
#[derive(Debug, Clone, Copy, PartialEq, Eq)]
pub enum CommandType {
    /// `SET <key> <value...>`
    Put,
    Get,
    GetKeys,
    Delete,
}

/// The protocol word of each command, as ASCII bytes.
pub open spec fn command_word(c: CommandType) -> Seq<u8> {
    match c {
        CommandType::Put => seq![83u8, 69, 84],
        CommandType::Get => seq![71u8, 69, 84],
        CommandType::GetKeys => seq![71u8, 69, 84, 95, 75, 69, 89, 83],
        CommandType::Delete => seq![68u8, 69, 76, 69, 84, 69],
    }
}

/// The command whose word is exactly `w`.
pub open spec fn command_of(w: Seq<u8>) -> Option<CommandType> {
    if w == command_word(CommandType::Put) {
        Some(CommandType::Put)
    } else if w == command_word(CommandType::Get) {
        Some(CommandType::Get)
    } else if w == command_word(CommandType::GetKeys) {
        Some(CommandType::GetKeys)
    } else if w == command_word(CommandType::Delete) {
        Some(CommandType::Delete)
    } else {
        None
    }
}

/// The Unicode `White_Space` characters, which `str::trim` removes.
pub open spec fn is_white_space(c: char) -> bool {
    let u = c as u32;
    (0x9 <= u <= 0xd) || u == 0x20 || u == 0x85 || u == 0xa0 || u == 0x1680 || (0x2000 <= u
        <= 0x200a) || u == 0x2028 || u == 0x2029 || u == 0x202f || u == 0x205f || u == 0x3000
}

/// How many white-space characters `s` starts with.
pub open spec fn leading_white(s: Seq<char>) -> nat
    decreases s.len(),
{
    if s.len() > 0 && is_white_space(s[0]) {
        1 + leading_white(s.drop_first())
    } else {
        0
    }
}

/// How many white-space characters `s` ends with.
pub open spec fn trailing_white(s: Seq<char>) -> nat
    decreases s.len(),
{
    if s.len() > 0 && is_white_space(s.last()) {
        1 + trailing_white(s.drop_last())
    } else {
        0
    }
}

/// `s` without its leading and trailing white space.
pub open spec fn trimmed(s: Seq<char>) -> Seq<char> {
    let rest = s.skip(leading_white(s) as int);
    rest.take(rest.len() - trailing_white(rest))
}

/// What `str::to_uppercase` makes of a string.
pub uninterp spec fn uppercased(s: Seq<char>) -> Seq<char>;

/// Relies on `str::trim`: it removes leading and trailing characters with the
/// Unicode `White_Space` property.
#[verifier::external_body]
fn trim_str(s: &str) -> (r: &str)
    ensures
        r@ == trimmed(s@),
{
    s.trim()
}

/// Relies on `str::to_uppercase`: the result depends on the characters alone.
#[verifier::external_body]
fn upper_str(s: &str) -> (r: String)
    ensures
        r@ == uppercased(s@),
{
    s.to_uppercase()
}

impl CommandType {
    pub fn as_str(&self) -> (r: &'static str)
        ensures
            r.spec_bytes() == command_word(*self),
    {
        proof {
            reveal_strlit("SET");
            reveal_strlit("GET");
            reveal_strlit("GET_KEYS");
            reveal_strlit("DELETE");
        }
        let r = match self {
            CommandType::Put => "SET",
            CommandType::Get => "GET",
            CommandType::GetKeys => "GET_KEYS",
            CommandType::Delete => "DELETE",
        };
        let b = r.as_bytes();
        proof {
            assert(b@ == r.spec_bytes());
        }
        assert(r.spec_bytes() =~= command_word(*self)) by {
            vstd::string::is_ascii_spec_bytes(r);
        }
        r
    }

    /// The command named by an exact, already normalised protocol word.
    pub fn from_word(w: &str) -> (r: Option<CommandType>)
        ensures
            r == command_of(w.spec_bytes()),
    {
        let b = w.as_bytes();
        let set_w: [u8; 3] = [83u8, 69, 84];
        let get_w: [u8; 3] = [71u8, 69, 84];
        let keys_w: [u8; 8] = [71u8, 69, 84, 95, 75, 69, 89, 83];
        let del_w: [u8; 6] = [68u8, 69, 76, 69, 84, 69];
        assert(set_w@ =~= command_word(CommandType::Put));
        assert(get_w@ =~= command_word(CommandType::Get));
        assert(keys_w@ =~= command_word(CommandType::GetKeys));
        assert(del_w@ =~= command_word(CommandType::Delete));
        if crate::codec::bytes_equal(b, set_w.as_slice()) {
            Some(CommandType::Put)
        } else if crate::codec::bytes_equal(b, get_w.as_slice()) {
            Some(CommandType::Get)
        } else if crate::codec::bytes_equal(b, keys_w.as_slice()) {
            Some(CommandType::GetKeys)
        } else if crate::codec::bytes_equal(b, del_w.as_slice()) {
            Some(CommandType::Delete)
        } else {
            None
        }
    }

    /// Reads a command word, ignoring surrounding whitespace and letter case.
    pub fn from_str(s: &str) -> (r: Option<CommandType>)
        ensures
            r == command_of(vstd::utf8::encode_utf8(uppercased(trimmed(s@)))),
    {
        let t = trim_str(s);
        let u = upper_str(t);
        CommandType::from_word(u.as_str())
    }
}

} // verus!
