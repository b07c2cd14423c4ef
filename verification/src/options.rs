//! What the command line asks for: the options, the test that they agree
//! with each other, and the reading of tracker tiers and node addresses.

use crate::pieces::is_piece_size;
use vstd::prelude::*;
use vstd::string::{StrSliceExecFns, StringExecFns};

verus! {

/// The texts of a run of strings.
pub open spec fn texts(strings: Seq<String>) -> Seq<Seq<char>> {
    Seq::new(strings.len(), |i: int| strings[i]@)
}

/// Index of the first `c` in `s`, or the length of `s` if it holds none.
pub open spec fn first_index_of(s: Seq<char>, c: char) -> int
    decreases s.len(),
{
    if s.len() == 0 {
        0
    } else if s[0] == c {
        0
    } else {
        1 + first_index_of(s.drop_first(), c)
    }
}

/// Index of the last `c` in `s`, or -1 if it holds none.
pub open spec fn last_index_of(s: Seq<char>, c: char) -> int
    decreases s.len(),
{
    if s.len() == 0 {
        -1
    } else if s.last() == c {
        s.len() - 1
    } else {
        last_index_of(s.drop_last(), c)
    }
}

/// The parts of `s` between its commas; a text without a comma is its own
/// single part.
pub open spec fn split_at_commas(s: Seq<char>) -> Seq<Seq<char>>
    decreases s.len(),
{
    let i = first_index_of(s, ',');
    if i < 0 || i >= s.len() {
        seq![s]
    } else {
        seq![s.take(i)] + split_at_commas(s.skip(i + 1))
    }
}

/// Whether `c` is a decimal digit.
pub open spec fn is_digit(c: char) -> bool {
    '0' <= c <= '9'
}

/// The number that the decimal digits `s` spell.
pub open spec fn digits_value(s: Seq<char>) -> nat
    decreases s.len(),
{
    if s.len() == 0 {
        0
    } else {
        digits_value(s.drop_last()) * 10 + (s.last() as nat - 48) as nat
    }
}

/// The port that `s` spells: decimal digits, at least one, with or without
/// a plus sign before them, that spell a number below 65536.
pub open spec fn parse_port(s: Seq<char>) -> Option<u16> {
    if s.len() > 0 && s[0] == '+' {
        port_of_digits(s.skip(1))
    } else {
        port_of_digits(s)
    }
}

/// Whether `s` holds decimal digits only.
pub open spec fn all_digits(s: Seq<char>) -> bool {
    forall|i: int| 0 <= i < s.len() ==> is_digit(#[trigger] s[i])
}

/// The port that the digits `s` spell, if they spell one.
pub open spec fn port_of_digits(s: Seq<char>) -> Option<u16> {
    if s.len() > 0 && all_digits(s) && digits_value(s) <= 65535 {
        Some(digits_value(s) as u16)
    } else {
        None
    }
}

/// The host that `s` names: what stands between the square brackets, if
/// `s` begins and ends with one, and else `s` itself.
pub open spec fn host_of(s: Seq<char>) -> Seq<char> {
    if s.len() > 0 && s[0] == '[' && s.last() == ']' {
        s.subrange(1, s.len() - 1)
    } else {
        s
    }
}

/// The host and the port of a node address: the port is what follows the
/// last colon, the host what stands before it.
pub open spec fn host_port(s: Seq<char>) -> Option<(Seq<char>, u16)> {
    let colon = last_index_of(s, ':');
    if colon < 0 {
        None
    } else {
        match parse_port(s.skip(colon + 1)) {
            Some(port) => Some((host_of(s.take(colon)), port)),
            None => None,
        }
    }
}

/// The index that `last_index_of` yields is that of a `c` after which no
/// `c` follows.
pub proof fn lemma_last_index_of(s: Seq<char>, c: char, i: int)
    requires
        -1 <= i < s.len(),
        i >= 0 ==> s[i] == c,
        forall|k: int| i < k < s.len() ==> s[k] != c,
    ensures
        last_index_of(s, c) == i,
    decreases s.len(),
{
    if s.len() > 0 && i < s.len() - 1 {
        lemma_last_index_of(s.drop_last(), c, i);
    }
}

/// The index that `first_index_of` yields is that of a `c` before which no
/// `c` stands.
pub proof fn lemma_first_index_of(s: Seq<char>, c: char, i: int)
    requires
        0 <= i <= s.len(),
        i < s.len() ==> s[i] == c,
        forall|k: int| 0 <= k < i ==> s[k] != c,
    ensures
        first_index_of(s, c) == i,
    decreases s.len(),
{
    if s.len() > 0 && i > 0 {
        lemma_first_index_of(s.drop_first(), c, i - 1);
    }
}

/// Digits spell no less with more digits after them.
pub proof fn lemma_digits_value_grows(s: Seq<char>, n: int)
    requires
        0 <= n <= s.len(),
        all_digits(s),
    ensures
        digits_value(s.take(n)) <= digits_value(s),
    decreases s.len() - n,
{
    if n < s.len() {
        lemma_digits_value_grows(s, n + 1);
        assert(s.take(n + 1).drop_last() =~= s.take(n));
    } else {
        assert(s.take(n) =~= s);
    }
}

/// Reads a port.
pub fn read_port(s: &str) -> (port: Option<u16>)
    ensures
        port == parse_port(s@),
{
    let n: usize = s.unicode_len();
    let start: usize = if n > 0 && s.get_char(0) == '+' {
        1
    } else {
        0
    };
    let ghost digits = s@.skip(start as int);
    proof {
        assert(s@.skip(0) =~= s@);
        assert(parse_port(s@) == port_of_digits(digits));
    }
    if start >= n {
        return None;
    }
    let mut value: u32 = 0;
    let mut i: usize = start;
    proof {
        assert(digits.take(0) =~= Seq::<char>::empty());
    }
    while i < n
        invariant
            start <= i <= n,
            n == s@.len(),
            digits == s@.skip(start as int),
            parse_port(s@) == port_of_digits(digits),
            forall|k: int| 0 <= k < i - start ==> is_digit(#[trigger] digits[k]),
            value == digits_value(digits.take(i - start)),
            value <= 65535,
        decreases n - i,
    {
        let c: char = s.get_char(i);
        assert(digits[i - start] == c);
        if c < '0' || c > '9' {
            return None;
        }
        let digit: u32 = c as u32 - 48;
        proof {
            assert(digits.take(i - start + 1).drop_last() =~= digits.take(i - start));
            assert(digits.take(i - start + 1).last() == c);
        }
        value = value * 10 + digit;
        if value > 65535 {
            proof {
                if all_digits(digits) {
                    lemma_digits_value_grows(digits, i - start + 1);
                }
            }
            return None;
        }
        i += 1;
    }
    proof {
        assert(digits.take(n - start) =~= digits);
    }
    Some(value as u16)
}

/// Splits a node address into host and port. Square brackets around the
/// host, as an IPv6 address takes them, are left out.
pub fn split_host_port(s: &str) -> (node: Option<(String, u16)>)
    ensures
        match node {
            Some((host, port)) => host_port(s@) == Some((host@, port)),
            None => host_port(s@) is None,
        },
{
    let n: usize = s.unicode_len();
    let mut i: usize = n;
    while i > 0 && s.get_char(i - 1) != ':'
        invariant
            i <= n,
            n == s@.len(),
            forall|k: int| i <= k < n ==> s@[k] != ':',
        decreases i,
    {
        i -= 1;
    }
    proof {
        lemma_last_index_of(s@, ':', i - 1);
    }
    if i == 0 {
        return None;
    }
    let colon: usize = i - 1;
    let l = s.substring_char(0, colon);
    let r = s.substring_char(colon + 1, n);
    proof {
        assert(l@ =~= s@.take(colon as int));
        assert(r@ =~= s@.skip(colon + 1));
    }
    let port: u16 = match read_port(r) {
        Some(p) => p,
        None => {
            return None;
        },
    };
    let host = if colon > 0 && l.get_char(0) == '[' && l.get_char(colon - 1) == ']' {
        String::from_str(l.substring_char(1, colon - 1))
    } else {
        String::from_str(l)
    };
    Some((host, port))
}

/// Splits a text at its commas.
pub fn split_commas(s: &str) -> (parts: Vec<String>)
    ensures
        texts(parts@) == split_at_commas(s@),
{
    let n: usize = s.unicode_len();
    let mut parts: Vec<String> = Vec::new();
    let mut start: usize = 0;
    let mut i: usize = 0;
    proof {
        assert(s@.skip(0) =~= s@);
        assert(texts(parts@) =~= Seq::<Seq<char>>::empty());
    }
    while i < n
        invariant
            start <= i <= n,
            n == s@.len(),
            split_at_commas(s@) == texts(parts@) + split_at_commas(s@.skip(start as int)),
            forall|k: int| start <= k < i ==> s@[k] != ',',
        decreases n - i,
    {
        if s.get_char(i) == ',' {
            let ghost rest = s@.skip(start as int);
            let ghost before = parts@;
            let part = String::from_str(s.substring_char(start, i));
            proof {
                lemma_first_index_of(rest, ',', i - start);
                assert(rest.take(i - start) =~= s@.subrange(start as int, i as int));
                assert(rest.skip(i - start + 1) =~= s@.skip(i + 1));
            }
            parts.push(part);
            proof {
                assert(texts(parts@) =~= texts(before).push(part@));
                assert(split_at_commas(s@) =~= texts(parts@) + split_at_commas(s@.skip(i + 1)));
            }
            start = i + 1;
        }
        i += 1;
    }
    let ghost rest = s@.skip(start as int);
    let ghost before = parts@;
    let part = String::from_str(s.substring_char(start, n));
    proof {
        lemma_first_index_of(rest, ',', n - start);
        assert(rest =~= s@.subrange(start as int, n as int));
    }
    parts.push(part);
    proof {
        assert(texts(parts@) =~= texts(before).push(part@));
    }
    parts
}

/// The options of one run.
pub struct CliOptions {
    /// Input file or folder.
    pub input: String,
    /// Output torrent file.
    pub output: String,
    /// Bytes of each piece, if the caller names a size.
    pub piece_size: Option<u64>,
    /// Leave out what version 1 of the protocol reads.
    pub no_bep3: bool,
    /// Leave out what version 2 reads.
    pub no_bep52: bool,
    /// Do not pad the files to piece boundaries.
    pub no_padding: bool,
    /// Tracker URLs: one text per tier, the URLs of a tier between commas.
    pub announce: Vec<String>,
    /// Addresses of DHT nodes, each a host, a colon and a port.
    pub node: Vec<String>,
    /// Mark the torrent as private.
    pub private: bool,
    /// Web seed URLs.
    pub webseed: Vec<String>,
    /// How much to report.
    pub verbose: i32,
    /// How many threads hash.
    pub threads: u64,
    /// Stop when the files are listed.
    pub stop_after_dirwalk: bool,
    /// Stop when the files are hashed.
    pub stop_after_hash: bool,
}

impl CliOptions {
    /// What is wrong with the options, if anything is: the first of the
    /// faults, in this order.
    pub open spec fn fault(&self) -> Option<Seq<char>> {
        if self.no_bep3 && self.no_bep52 {
            Some("At least one bep3/bep52"@)
        } else if self.announce@.len() == 0 && self.node@.len() == 0 {
            Some("Please specify tracker/node URL using --announce/--node"@)
        } else if self.piece_size is Some && self.piece_size->0 < 16384 {
            Some("Piece size too small"@)
        } else if self.piece_size is Some && self.piece_size->0 > 2097152 {
            Some("Piece size too large"@)
        } else if self.piece_size is Some && !is_piece_size(self.piece_size->0) {
            Some("Piece size is not a power of 2"@)
        } else if self.threads < 1 {
            Some("are you kidding me running with 0 thread?"@)
        } else if self.no_padding && (!self.no_bep52 || self.threads != 1 || self.no_bep3) {
            Some("no_padding is incompatible with bep52 and threads."@)
        } else {
            None
        }
    }

    /// Tests that the options agree with each other.
    pub fn check(&self) -> (checked: Result<(), String>)
        ensures
            match checked {
                Ok(_) => self.fault() is None,
                Err(message) => self.fault() == Some(message@),
            },
    {
        if self.no_bep3 && self.no_bep52 {
            return Err(String::from_str("At least one bep3/bep52"));
        }
        if self.announce.len() == 0 && self.node.len() == 0 {
            return Err(
                String::from_str("Please specify tracker/node URL using --announce/--node"),
            );
        }
        if let Some(x) = self.piece_size {
            if x < 16 * 1024 {
                return Err(String::from_str("Piece size too small"));
            }
            if x > 2 * 1024 * 1024 {
                return Err(String::from_str("Piece size too large"));
            }
            if !crate::pieces::check_piece_size(x) {
                return Err(String::from_str("Piece size is not a power of 2"));
            }
        }
        if self.threads < 1 {
            return Err(String::from_str("are you kidding me running with 0 thread?"));
        }
        if self.no_padding {
            if !self.no_bep52 || self.threads != 1 || self.no_bep3 {
                return Err(String::from_str("no_padding is incompatible with bep52 and threads."));
            }
        }
        Ok(())
    }

    /// The tracker tiers: each text of `announce` split at its commas.
    pub fn parse_announces(&self) -> (tiers: Vec<Vec<String>>)
        ensures
            tiers@.len() == self.announce@.len(),
            forall|i: int|
                0 <= i < tiers@.len() ==> texts((#[trigger] tiers@[i])@) == split_at_commas(
                    self.announce@[i]@,
                ),
    {
        let mut tiers: Vec<Vec<String>> = Vec::new();
        let mut i: usize = 0;
        while i < self.announce.len()
            invariant
                i <= self.announce@.len(),
                tiers@.len() == i,
                forall|k: int|
                    0 <= k < i ==> texts((#[trigger] tiers@[k])@) == split_at_commas(
                        self.announce@[k]@,
                    ),
            decreases self.announce@.len() - i,
        {
            tiers.push(split_commas(self.announce[i].as_str()));
            i += 1;
        }
        tiers
    }

    /// Index of the first node address that cannot be read, or the number
    /// of addresses if all can.
    pub open spec fn first_bad_node(&self, n: nat) -> int
        decreases n,
    {
        if n == 0 || n > self.node@.len() {
            0
        } else {
            let before = self.first_bad_node((n - 1) as nat);
            if before < n - 1 {
                before
            } else if host_port(self.node@[n - 1]@) is None {
                n - 1
            } else {
                n as int
            }
        }
    }

    /// The DHT nodes: each address of `node` split into host and port.
    /// Fails at the first address that cannot be read, with a message that
    /// names it.
    pub fn parse_nodes(&self) -> (parsed: Result<Vec<(String, u16)>, String>)
        ensures
            match parsed {
                Ok(nodes) => {
                    &&& nodes@.len() == self.node@.len()
                    &&& forall|i: int|
                        0 <= i < nodes@.len() ==> host_port(self.node@[i]@) == Some(
                            ((#[trigger] nodes@[i]).0@, nodes@[i].1),
                        )
                },
                Err(message) => {
                    let bad = self.first_bad_node(self.node@.len());
                    &&& 0 <= bad < self.node@.len()
                    &&& host_port(self.node@[bad]@) is None
                    &&& forall|i: int| 0 <= i < bad ==> host_port(#[trigger] self.node@[i]@) is Some
                    &&& message@ == "Invalid node: "@ + self.node@[bad]@
                },
            },
    {
        let mut nodes: Vec<(String, u16)> = Vec::new();
        let mut i: usize = 0;
        while i < self.node.len()
            invariant
                i <= self.node@.len(),
                nodes@.len() == i,
                self.first_bad_node(i as nat) == i,
                forall|k: int|
                    0 <= k < i ==> host_port(self.node@[k]@) == Some(
                        ((#[trigger] nodes@[k]).0@, nodes@[k].1),
                    ),
            decreases self.node@.len() - i,
        {
            let address = &self.node[i];
            match split_host_port(address.as_str()) {
                Some(x) => {
                    nodes.push(x);
                },
                None => {
                    proof {
                        self.lemma_first_bad_node(i as int, self.node@.len());
                        assert forall|k: int| 0 <= k < i implies host_port(
                            #[trigger] self.node@[k]@,
                        ) is Some by {
                            let seen = nodes@[k];
                        }
                    }
                    return Err(String::from_str("Invalid node: ").concat(address.as_str()));
                },
            }
            i += 1;
        }
        Ok(nodes)
    }

    /// Once an address cannot be read, it stays the first that cannot.
    proof fn lemma_first_bad_node(&self, bad: int, n: nat)
        requires
            0 <= bad < n <= self.node@.len(),
            self.first_bad_node(bad as nat) == bad,
            host_port(self.node@[bad]@) is None,
        ensures
            self.first_bad_node(n) == bad,
        decreases n,
    {
        if n > bad + 1 {
            self.lemma_first_bad_node(bad, (n - 1) as nat);
        }
    }
}

} // verus!
