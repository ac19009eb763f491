//! Node records: one bootstrap node per line of the node list.
//!
//! A line holds, separated by white space, the node's address, its port in
//! decimal and its public key; what follows the key is ignored. The key is
//! decoded by whoever owns the network session, so the functions here take
//! the decoder's answer as an argument.

use vstd::prelude::*;
use crate::text::{
    has_no_white_space, is_all_white_space, is_white_space, lemma_words_after_gap,
    lemma_words_after_word, split_whitespace, words_of,
};

verus! {

/// Number of bytes of a public key.
pub const PUBLIC_KEY_SIZE: usize = 32;

/// The public key of a node: key material of fixed length.
#[derive(Clone, Copy, Debug, PartialEq, Eq)]
pub struct PublicKey {
    pub raw: [u8; PUBLIC_KEY_SIZE],
}

/// A bootstrap node: where to reach it and the key it answers to.
#[derive(Clone, Debug, PartialEq, Eq)]
pub struct Bootstrap {
    /// Address of the node, as the node list gives it.
    pub ip: String,
    pub port: u16,
    pub pubkey: PublicKey,
}

/// What a bootstrap node is, as plain values.
pub struct BootstrapView {
    pub ip: Seq<char>,
    pub port: u16,
    pub pubkey: PublicKey,
}

impl View for Bootstrap {
    type V = BootstrapView;

    open spec fn view(&self) -> BootstrapView {
        BootstrapView { ip: self.ip@, port: self.port, pubkey: self.pubkey }
    }
}

impl DeepView for Bootstrap {
    type V = BootstrapView;

    open spec fn deep_view(&self) -> BootstrapView {
        self@
    }
}

/// The fields of a node record before its key is decoded.
#[derive(Clone, Debug, PartialEq, Eq)]
pub struct NodeFields {
    /// First word of the line.
    pub ip: String,
    /// Value of the second word.
    pub port: u16,
    /// Third word of the line: the public key as text.
    pub key_text: String,
}

/// What the fields of a node record are, as plain values.
pub struct NodeFieldsView {
    pub ip: Seq<char>,
    pub port: u16,
    pub key_text: Seq<char>,
}

impl View for NodeFields {
    type V = NodeFieldsView;

    open spec fn view(&self) -> NodeFieldsView {
        NodeFieldsView { ip: self.ip@, port: self.port, key_text: self.key_text@ }
    }
}

/// The decimal digits `0` to `9`.
pub open spec fn is_digit(c: char) -> bool {
    0x30 <= c as u32 <= 0x39
}

/// Every character of `s` is a decimal digit.
pub open spec fn all_digits(s: Seq<char>) -> bool {
    forall|i: int| 0 <= i < s.len() ==> is_digit(#[trigger] s[i])
}

/// The number that the digits `s` write in decimal.
pub open spec fn decimal(s: Seq<char>) -> nat
    decreases s.len(),
{
    if s.len() == 0 {
        0
    } else {
        (decimal(s.drop_last()) * 10 + (s.last() as u32 - 0x30)) as nat
    }
}

/// `word` without the plus sign at its start, if it has one.
pub open spec fn unsigned_part(word: Seq<char>) -> Seq<char> {
    if word.len() > 0 && word[0] == '+' {
        word.drop_first()
    } else {
        word
    }
}

/// The port that `word` writes: one or more decimal digits, with or
/// without a plus sign before them, of a value that fits 16 bits.
pub open spec fn port_of(word: Seq<char>) -> Option<u16> {
    let digits = unsigned_part(word);
    if digits.len() > 0 && all_digits(digits) && decimal(digits) <= u16::MAX {
        Some(decimal(digits) as u16)
    } else {
        None
    }
}

/// The fields of the record on `line`: its first three words, the second
/// read as a port. `None` where the line has fewer than three words or the
/// second writes no port.
pub open spec fn node_fields_of(line: Seq<char>) -> Option<NodeFieldsView> {
    let words = words_of(line);
    if words.len() >= 3 {
        match port_of(words[1]) {
            Some(port) => Some(NodeFieldsView { ip: words[0], port, key_text: words[2] }),
            None => None,
        }
    } else {
        None
    }
}

/// The node on `line`, given what the key decoder made of the line's third
/// word. `None` where the line has no fields or the key was not decoded.
pub open spec fn bootstrap_of(line: Seq<char>, key: Option<PublicKey>) -> Option<BootstrapView> {
    match (node_fields_of(line), key) {
        (Some(fields), Some(pubkey)) => Some(
            BootstrapView { ip: fields.ip, port: fields.port, pubkey },
        ),
        _ => None,
    }
}

/// The decoded key that goes with line `i`; none where `keys` has no entry for it.
pub open spec fn key_at(keys: Seq<Option<PublicKey>>, i: int) -> Option<PublicKey> {
    if 0 <= i < keys.len() {
        keys[i]
    } else {
        None
    }
}

/// The nodes that a scan of `lines` yields. The scan goes through the lines
/// in order and stops for good at the first line that has no node: no line
/// after it is read.
pub open spec fn leading_nodes_of(
    lines: Seq<Seq<char>>,
    keys: Seq<Option<PublicKey>>,
) -> Seq<BootstrapView>
    decreases lines.len(),
{
    if lines.len() == 0 {
        Seq::empty()
    } else {
        let last = lines.len() - 1;
        let before = leading_nodes_of(lines.drop_last(), keys);
        match bootstrap_of(lines[last], key_at(keys, last)) {
            Some(node) => if before.len() == last {
                before.push(node)
            } else {
                before
            },
            None => before,
        }
    }
}

/// The number written by some of the leading digits is at most the number
/// written by all of them.
proof fn lemma_decimal_grows(s: Seq<char>, n: int)
    requires
        all_digits(s),
        0 <= n <= s.len(),
    ensures
        decimal(s.take(n)) <= decimal(s),
    decreases s.len() - n,
{
    if n == s.len() {
        assert(s.take(n) =~= s);
    } else {
        lemma_decimal_grows(s, n + 1);
        let longer = s.take(n + 1);
        assert(longer.drop_last() =~= s.take(n));
        assert(is_digit(s[n]));
        assert(longer.last() == s[n]);
    }
}

/// Reads a port: decimal digits, with or without a plus sign before them,
/// of a value up to 65535.
pub fn parse_port(word: &str) -> (port: Option<u16>)
    ensures
        port == port_of(word@),
{
    let ghost digits = unsigned_part(word@);
    let ghost sign: int = word@.len() - digits.len();
    let mut value: u32 = 0;
    let mut at_start: bool = true;
    let mut any_digit: bool = false;
    for c in it: word.chars()
        invariant
            it.seq() == word@,
            digits == unsigned_part(word@),
            sign == word@.len() - digits.len(),
            at_start <==> it.index() == 0,
            any_digit <==> it.index() > sign,
            !at_start ==> it.index() >= sign,
            !at_start ==> all_digits(digits.take(it.index() - sign)),
            !at_start ==> value == decimal(digits.take(it.index() - sign)),
            at_start ==> value == 0,
            value <= u16::MAX,
    {
        let ghost i = it.index() as int;
        if at_start && c == '+' {
            at_start = false;
            assert(digits.take(0) =~= Seq::<char>::empty());
        } else {
            let ghost k = i - sign;
            assert(0 <= k < digits.len());
            assert(digits[k] == c);
            let ghost upto = digits.take(k + 1);
            assert(upto.drop_last() =~= digits.take(k));
            assert(upto.last() == c);
            assert(digits.take(0) =~= Seq::<char>::empty());
            at_start = false;
            let n: u32 = c as u32;
            if n < 0x30 || n > 0x39 {
                return None;
            }
            assert(decimal(upto) == decimal(digits.take(k)) * 10 + (n - 0x30));
            value = value * 10 + (n - 0x30);
            any_digit = true;
            assert forall|j: int| 0 <= j < upto.len() implies is_digit(#[trigger] upto[j]) by {
                if j < k {
                    assert(digits.take(k)[j] == upto[j]);
                }
            }
            if value > 65535 {
                proof {
                    if all_digits(digits) {
                        lemma_decimal_grows(digits, k + 1);
                    }
                }
                return None;
            }
        }
    }
    if any_digit {
        assert(digits.take(digits.len() as int) =~= digits);
        Some(value as u16)
    } else {
        None
    }
}

/// Reads the fields of a node record off `line`.
pub fn parse_node_fields(line: &str) -> (fields: Option<NodeFields>)
    ensures
        match fields {
            Some(f) => node_fields_of(line@) == Some(f@),
            None => node_fields_of(line@) is None,
        },
{
    let words = split_whitespace(line);
    if words.len() >= 3 {
        assert(words.deep_view()[0] == words[0]@);
        assert(words.deep_view()[1] == words[1]@);
        assert(words.deep_view()[2] == words[2]@);
        match parse_port(words[1].as_str()) {
            Some(port) => Some(
                NodeFields { ip: words[0].clone(), port, key_text: words[2].clone() },
            ),
            None => None,
        }
    } else {
        None
    }
}

/// Reads the node off `line`. `key` is what the key decoder made of the
/// line's third word: `None` where it refused the word, or where the line
/// has no third word to decode.
pub fn parse_to_bootstrap(line: &str, key: Option<PublicKey>) -> (node: Option<Bootstrap>)
    ensures
        match node {
            Some(b) => bootstrap_of(line@, key) == Some(b@),
            None => bootstrap_of(line@, key) is None,
        },
{
    match parse_node_fields(line) {
        Some(fields) => match key {
            Some(pubkey) => Some(Bootstrap { ip: fields.ip, port: fields.port, pubkey }),
            None => None,
        },
        None => None,
    }
}

/// A scan yields at most one node per line.
pub proof fn lemma_leading_nodes_len(lines: Seq<Seq<char>>, keys: Seq<Option<PublicKey>>)
    ensures
        leading_nodes_of(lines, keys).len() <= lines.len(),
    decreases lines.len(),
{
    if lines.len() > 0 {
        lemma_leading_nodes_len(lines.drop_last(), keys);
    }
}

/// As long as every line has a node, the scan yields the node of each line.
pub proof fn lemma_scan_of_good_lines(lines: Seq<Seq<char>>, keys: Seq<Option<PublicKey>>)
    requires
        forall|i: int| 0 <= i < lines.len() ==> bootstrap_of(#[trigger] lines[i], key_at(keys, i)) is Some,
    ensures
        leading_nodes_of(lines, keys).len() == lines.len(),
        forall|i: int|
            0 <= i < lines.len() ==> bootstrap_of(lines[i], key_at(keys, i)) == Some(
                #[trigger] leading_nodes_of(lines, keys)[i],
            ),
    decreases lines.len(),
{
    if lines.len() > 0 {
        let before = lines.drop_last();
        assert forall|i: int| 0 <= i < before.len() implies bootstrap_of(
            #[trigger] before[i],
            key_at(keys, i),
        ) is Some by {
            assert(before[i] == lines[i]);
        }
        lemma_scan_of_good_lines(before, keys);
        assert(lines[lines.len() - 1] == lines.last());
        assert forall|i: int| 0 <= i < lines.len() implies bootstrap_of(
            lines[i],
            key_at(keys, i),
        ) == Some(#[trigger] leading_nodes_of(lines, keys)[i]) by {
            if i < before.len() {
                assert(before[i] == lines[i]);
                assert(leading_nodes_of(lines, keys)[i] == leading_nodes_of(before, keys)[i]);
            }
        }
    }
}

/// Lines after a line without node add nothing to the scan.
proof fn lemma_scan_ignores_rest(lines: Seq<Seq<char>>, keys: Seq<Option<PublicKey>>, n: int)
    requires
        0 <= n < lines.len(),
        bootstrap_of(lines[n], key_at(keys, n)) is None,
    ensures
        leading_nodes_of(lines, keys) == leading_nodes_of(lines.take(n), keys),
    decreases lines.len(),
{
    let before = lines.drop_last();
    lemma_leading_nodes_len(lines.take(n), keys);
    if n == lines.len() - 1 {
        assert(before =~= lines.take(n));
    } else {
        assert(before[n] == lines[n]);
        assert(before.take(n) =~= lines.take(n));
        lemma_scan_ignores_rest(before, keys, n);
    }
}

/// The scan of a node list stops at the first line without node: where
/// the first `n` lines have a node each and the line after them has none,
/// exactly those `n` lines yield nodes, whatever the later lines hold.
pub proof fn lemma_scan_stops_at_first_bad_line(
    lines: Seq<Seq<char>>,
    keys: Seq<Option<PublicKey>>,
    n: int,
)
    requires
        0 <= n < lines.len(),
        forall|i: int| 0 <= i < n ==> bootstrap_of(#[trigger] lines[i], key_at(keys, i)) is Some,
        bootstrap_of(lines[n], key_at(keys, n)) is None,
    ensures
        leading_nodes_of(lines, keys).len() == n,
        forall|i: int|
            0 <= i < n ==> bootstrap_of(lines[i], key_at(keys, i)) == Some(
                #[trigger] leading_nodes_of(lines, keys)[i],
            ),
{
    let good = lines.take(n);
    lemma_scan_ignores_rest(lines, keys, n);
    assert forall|i: int| 0 <= i < good.len() implies bootstrap_of(
        #[trigger] good[i],
        key_at(keys, i),
    ) is Some by {
        assert(good[i] == lines[i]);
    }
    lemma_scan_of_good_lines(good, keys);
    assert forall|i: int| 0 <= i < n implies bootstrap_of(lines[i], key_at(keys, i)) == Some(
        #[trigger] leading_nodes_of(lines, keys)[i],
    ) by {
        assert(good[i] == lines[i]);
    }
}

/// Scans the node list: reads the node off each line, in order, and stops
/// for good at the first line that has none. `keys[i]` is what the key
/// decoder made of the third word of `lines[i]`; a line without an entry in
/// `keys` counts as one whose key was not decoded.
pub fn leading_nodes(lines: &Vec<String>, keys: &Vec<Option<PublicKey>>) -> (nodes: Vec<Bootstrap>)
    ensures
        nodes.deep_view() == leading_nodes_of(lines.deep_view(), keys@),
{
    let mut nodes: Vec<Bootstrap> = Vec::new();
    let mut i: usize = 0;
    assert(lines.deep_view().take(0) =~= Seq::<Seq<char>>::empty());
    assert(nodes.deep_view() =~= Seq::<BootstrapView>::empty());
    while i < lines.len()
        invariant
            i <= lines.len(),
            nodes.len() == i,
            nodes.deep_view() == leading_nodes_of(lines.deep_view().take(i as int), keys@),
        decreases lines.len() - i,
    {
        let key = if i < keys.len() {
            keys[i]
        } else {
            None
        };
        let ghost upto = lines.deep_view().take(i as int + 1);
        assert(upto.drop_last() =~= lines.deep_view().take(i as int));
        assert(upto.last() == lines[i as int]@);
        match parse_to_bootstrap(lines[i].as_str(), key) {
            Some(node) => {
                let ghost before = nodes.deep_view();
                let ghost added = node@;
                nodes.push(node);
                assert(nodes.deep_view() =~= before.push(added));
            },
            None => {
                proof {
                    assert(lines.deep_view()[i as int] == lines[i as int]@);
                    lemma_scan_ignores_rest(lines.deep_view(), keys@, i as int);
                }
                return nodes;
            },
        }
        i += 1;
    }
    assert(lines.deep_view().take(lines.len() as int) =~= lines.deep_view());
    nodes
}

/// A line that holds an address, a port and a key, with white space between
/// them, has exactly these as its fields, and has fields only if the port
/// is one; it has a node only if, besides, the key was decoded. White space
/// before the address changes nothing, and neither does what follows the
/// key after white space.
pub proof fn lemma_node_of_record_line(
    lead: Seq<char>,
    ip: Seq<char>,
    gap: Seq<char>,
    port_text: Seq<char>,
    gap2: Seq<char>,
    key_text: Seq<char>,
    tail: Seq<char>,
    key: Option<PublicKey>,
)
    requires
        is_all_white_space(lead),
        ip.len() > 0 && has_no_white_space(ip),
        gap.len() > 0 && is_all_white_space(gap),
        port_text.len() > 0 && has_no_white_space(port_text),
        gap2.len() > 0 && is_all_white_space(gap2),
        key_text.len() > 0 && has_no_white_space(key_text),
        tail.len() == 0 || is_white_space(tail[0]),
    ensures
        node_fields_of(lead + ip + gap + port_text + gap2 + key_text + tail) == match port_of(
            port_text,
        ) {
            Some(port) => Some(NodeFieldsView { ip, port, key_text }),
            None => None,
        },
        bootstrap_of(lead + ip + gap + port_text + gap2 + key_text + tail, key) == match (
            port_of(port_text),
            key,
        ) {
            (Some(port), Some(pubkey)) => Some(BootstrapView { ip, port, pubkey }),
            _ => None,
        },
{
    let line = lead + ip + gap + port_text + gap2 + key_text + tail;
    let after_key = key_text + tail;
    let after_port = gap2 + after_key;
    let from_port = port_text + after_port;
    let after_ip = gap + from_port;
    let from_ip = ip + after_ip;
    assert(line =~= lead + from_ip);
    assert(after_ip[0] == gap[0]);
    assert(after_port[0] == gap2[0]);
    lemma_words_after_gap(lead, from_ip);
    lemma_words_after_word(ip, after_ip);
    lemma_words_after_gap(gap, from_port);
    lemma_words_after_word(port_text, after_port);
    lemma_words_after_gap(gap2, after_key);
    lemma_words_after_word(key_text, tail);
    assert(words_of(line) =~= seq![ip] + (seq![port_text] + (seq![key_text] + words_of(tail))));
}

} // verus!
