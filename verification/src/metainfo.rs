//! The parts that every metainfo dictionary is made of: text values, the
//! tracker and node entries of the outer dictionary, and the entries of the
//! `files` list.

use crate::bencode::{dict_insert, BencodeDict, BencodeValue, BencodeView};
use crate::bytestring::{decimal, push_decimal};
use vstd::prelude::*;
use vstd::string::{StrSliceExecFns};
use vstd::utf8::encode_utf8;

verus! {

/// The entries of a dictionary.
pub type Entries = Seq<(Seq<u8>, BencodeView)>;

/// The byte string that holds the UTF-8 encoding of `s`.
pub open spec fn text(s: Seq<char>) -> BencodeView {
    BencodeView::Bytes(encode_utf8(s))
}

/// The dictionary key spelled `name`.
pub open spec fn key(name: &str) -> Seq<u8> {
    encode_utf8(name@)
}

/// One tracker tier: the list of its URLs.
pub open spec fn tier_view(tier: Seq<String>) -> BencodeView {
    BencodeView::List(Seq::new(tier.len(), |i: int| text(tier[i]@)))
}

/// All tracker tiers: a list of lists.
pub open spec fn announce_list_view(announces: Seq<Vec<String>>) -> BencodeView {
    BencodeView::List(Seq::new(announces.len(), |i: int| tier_view(announces[i]@)))
}

/// One DHT node: the list of its host and its port.
pub open spec fn node_view(node: (String, u16)) -> BencodeView {
    BencodeView::List(seq![text(node.0@), BencodeView::Integer(node.1 as i64)])
}

/// All DHT nodes.
pub open spec fn nodes_view(nodes: Seq<(String, u16)>) -> BencodeView {
    BencodeView::List(Seq::new(nodes.len(), |i: int| node_view(nodes[i])))
}

/// The web seeds: a single URL as a string, several as a list of strings.
pub open spec fn url_list_view(webseeds: Seq<String>) -> BencodeView {
    if webseeds.len() == 1 {
        text(webseeds[0]@)
    } else {
        BencodeView::List(Seq::new(webseeds.len(), |i: int| text(webseeds[i]@)))
    }
}

/// Whether the tracker tiers are listed: there is more than one tier, or
/// the first tier holds more than one URL.
pub open spec fn lists_tiers(announces: Seq<Vec<String>>) -> bool {
    announces.len() > 1 || (announces.len() == 1 && announces[0]@.len() > 1)
}

/// `entries` with the tracker, node and web seed entries put in: `announce`
/// is the first URL of the first tier, and each of the four is there only
/// where there is something to say.
pub open spec fn with_trackers(
    entries: Entries,
    announces: Seq<Vec<String>>,
    nodes: Seq<(String, u16)>,
    webseeds: Seq<String>,
) -> Entries {
    let with_announce = if announces.len() > 0 {
        dict_insert(entries, key("announce"), text(announces[0]@[0]@))
    } else {
        entries
    };
    let with_list = if lists_tiers(announces) {
        dict_insert(with_announce, key("announce-list"), announce_list_view(announces))
    } else {
        with_announce
    };
    let with_nodes = if nodes.len() > 0 {
        dict_insert(with_list, key("nodes"), nodes_view(nodes))
    } else {
        with_list
    };
    if webseeds.len() > 0 {
        dict_insert(with_nodes, key("url-list"), url_list_view(webseeds))
    } else {
        with_nodes
    }
}

/// The path of a file below the torrent's root: its names but the first.
pub open spec fn path_view(components: Seq<String>) -> BencodeView {
    BencodeView::List(Seq::new((components.len() - 1) as nat, |i: int| text(components[i + 1]@)))
}

/// The entry of a file in the `files` list.
pub open spec fn file_entry(length: u64, components: Seq<String>) -> BencodeView {
    BencodeView::Dict(
        dict_insert(
            dict_insert(Seq::empty(), key("length"), BencodeView::Integer(length as i64)),
            key("path"),
            path_view(components),
        ),
    )
}

/// The entry of a padding file of `padding` bytes in the `files` list.
pub open spec fn pad_entry(padding: u64) -> BencodeView {
    BencodeView::Dict(
        dict_insert(
            dict_insert(
                dict_insert(Seq::empty(), key("attr"), text("p"@)),
                key("length"),
                BencodeView::Integer(padding as i64),
            ),
            key("path"),
            BencodeView::List(seq![text(".pad"@), BencodeView::Bytes(decimal(padding as nat))]),
        ),
    )
}

/// The key spelled `name`.
pub fn key_bytes(name: &str) -> (bytes: Vec<u8>)
    ensures
        bytes@ == key(name),
{
    name.as_bytes_vec()
}

/// The byte string that holds `s`.
pub fn text_value(s: &str) -> (value: BencodeValue)
    ensures
        value@ == text(s@),
{
    BencodeValue::Bytes(s.as_bytes_vec())
}

/// The list of the texts `items[from..]`.
pub fn text_list(items: &Vec<String>, from: usize) -> (value: BencodeValue)
    requires
        from <= items@.len(),
    ensures
        value@ == BencodeView::List(
            Seq::new((items@.len() - from) as nat, |i: int| text(items@[i + from]@)),
        ),
{
    let mut list: Vec<BencodeValue> = Vec::new();
    let mut i: usize = from;
    while i < items.len()
        invariant
            from <= i <= items@.len(),
            list@.len() == i - from,
            forall|k: int| 0 <= k < list@.len() ==> (#[trigger] list@[k])@ == text(items@[k + from]@),
        decreases items@.len() - i,
    {
        list.push(text_value(items[i].as_str()));
        i += 1;
    }
    let value = BencodeValue::List(list);
    assert(value@->List_0 =~= Seq::new(
        (items@.len() - from) as nat,
        |i: int| text(items@[i + from]@),
    ));
    value
}

/// The list of the URLs of one tier.
pub fn tier_value(tier: &Vec<String>) -> (value: BencodeValue)
    ensures
        value@ == tier_view(tier@),
{
    let value = text_list(tier, 0);
    assert(value@->List_0 =~= tier_view(tier@)->List_0);
    value
}

/// The list of all tiers.
pub fn announce_list_value(announces: &Vec<Vec<String>>) -> (value: BencodeValue)
    ensures
        value@ == announce_list_view(announces@),
{
    let mut list: Vec<BencodeValue> = Vec::new();
    let mut i: usize = 0;
    while i < announces.len()
        invariant
            i <= announces@.len(),
            list@.len() == i,
            forall|k: int| 0 <= k < i ==> (#[trigger] list@[k])@ == tier_view(announces@[k]@),
        decreases announces@.len() - i,
    {
        list.push(tier_value(&announces[i]));
        i += 1;
    }
    let value = BencodeValue::List(list);
    assert(value@->List_0 =~= announce_list_view(announces@)->List_0);
    value
}

/// The list of all nodes.
pub fn nodes_value(nodes: &Vec<(String, u16)>) -> (value: BencodeValue)
    ensures
        value@ == nodes_view(nodes@),
{
    let mut list: Vec<BencodeValue> = Vec::new();
    let mut i: usize = 0;
    while i < nodes.len()
        invariant
            i <= nodes@.len(),
            list@.len() == i,
            forall|k: int| 0 <= k < i ==> (#[trigger] list@[k])@ == node_view(nodes@[k]),
        decreases nodes@.len() - i,
    {
        let host = text_value(nodes[i].0.as_str());
        let port = BencodeValue::Integer(nodes[i].1 as i64);
        let ghost want = node_view(nodes@[i as int])->List_0;
        assert(want[0] == host@ && want[1] == port@);
        let mut pair: Vec<BencodeValue> = Vec::new();
        pair.push(host);
        pair.push(port);
        let node = BencodeValue::List(pair);
        assert(node@->List_0 =~= want);
        list.push(node);
        i += 1;
    }
    let value = BencodeValue::List(list);
    assert(value@->List_0 =~= nodes_view(nodes@)->List_0);
    value
}

/// The web seeds.
pub fn url_list_value(webseeds: &Vec<String>) -> (value: BencodeValue)
    ensures
        value@ == url_list_view(webseeds@),
{
    if webseeds.len() == 1 {
        text_value(webseeds[0].as_str())
    } else {
        let value = text_list(webseeds, 0);
        assert(value@->List_0 =~= url_list_view(webseeds@)->List_0);
        value
    }
}

/// Puts the tracker, node and web seed entries into `dict`.
pub fn put_trackers(
    dict: &mut BencodeDict,
    announces: &Vec<Vec<String>>,
    nodes: &Vec<(String, u16)>,
    webseeds: &Vec<String>,
)
    requires
        announces@.len() > 0 ==> announces@[0]@.len() > 0,
    ensures
        final(dict)@ == with_trackers(old(dict)@, announces@, nodes@, webseeds@),
{
    if announces.len() > 0 {
        dict.put(key_bytes("announce"), text_value(announces[0][0].as_str()));
    }
    if announces.len() > 1 || (announces.len() == 1 && announces[0].len() > 1) {
        dict.put(key_bytes("announce-list"), announce_list_value(announces));
    }
    if nodes.len() > 0 {
        dict.put(key_bytes("nodes"), nodes_value(nodes));
    }
    if webseeds.len() > 0 {
        dict.put(key_bytes("url-list"), url_list_value(webseeds));
    }
}

/// The path of a file below the root.
pub fn path_value(components: &Vec<String>) -> (value: BencodeValue)
    requires
        components@.len() >= 1,
    ensures
        value@ == path_view(components@),
{
    let value = text_list(components, 1);
    assert(value@->List_0 =~= path_view(components@)->List_0);
    value
}

/// The entry of a file in the `files` list.
pub fn file_entry_value(length: u64, components: &Vec<String>) -> (value: BencodeValue)
    requires
        components@.len() >= 1,
        length <= i64::MAX,
    ensures
        value@ == file_entry(length, components@),
{
    let mut file = BencodeDict::new();
    file.put(key_bytes("length"), BencodeValue::Integer(length as i64));
    file.put(key_bytes("path"), path_value(components));
    BencodeValue::Dict(file)
}

/// The entry of a padding file in the `files` list.
pub fn pad_entry_value(padding: u64) -> (value: BencodeValue)
    requires
        padding <= i64::MAX,
    ensures
        value@ == pad_entry(padding),
{
    let mut digits: Vec<u8> = Vec::new();
    push_decimal(padding, &mut digits);
    assert(digits@ =~= decimal(padding as nat));
    let name = text_value(".pad");
    let size = BencodeValue::Bytes(digits);
    let ghost want = seq![text(".pad"@), BencodeView::Bytes(decimal(padding as nat))];
    assert(want[0] == name@ && want[1] == size@);
    let mut path: Vec<BencodeValue> = Vec::new();
    path.push(name);
    path.push(size);
    let path = BencodeValue::List(path);
    assert(path@->List_0 =~= want);
    let mut pad_file = BencodeDict::new();
    pad_file.put(key_bytes("attr"), text_value("p"));
    pad_file.put(key_bytes("length"), BencodeValue::Integer(padding as i64));
    pad_file.put(key_bytes("path"), path);
    BencodeValue::Dict(pad_file)
}

} // verus!
