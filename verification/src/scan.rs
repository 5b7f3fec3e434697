//! A scan of a map response for the node's own address. A response may be too large to
//! parse, so it is read byte by byte: strings and brackets are followed just far enough to
//! know when the reading stands in the `Addresses` list of the `Node` member.
use vstd::prelude::*;
use vstd::slice::slice_subrange;
use crate::bytes::{starts, starts_with};
use crate::platform::rest;

verus! {

/// A name that matters to the scan.
#[derive(Clone, Copy, Debug, PartialEq, Eq, Structural)]
pub enum Name {
    Node,
    Addresses,
    Other,
}

/// Where a reading stands after some bytes.
#[derive(Clone, Copy, Debug, PartialEq, Eq, Structural)]
pub struct Place {
    /// How many bytes of a length in front of a message are still to come.
    pub skip: usize,
    /// How many objects and lists are open.
    pub depth: usize,
    /// Whether a string is open, and whether its last byte escapes the next.
    pub string: bool,
    pub escaped: bool,
    /// What the last string says.
    pub name: Name,
    /// Whether the open member of the message is the one named `Node`.
    pub node: bool,
    /// Whether the open member of that member is the one named `Addresses`.
    pub addresses: bool,
    /// Whether what was opened third is a list.
    pub list: bool,
}

/// `Node"`.
pub open spec fn node_name() -> Seq<u8> {
    seq![78u8, 111, 100, 101, 34]
}

/// `Addresses"`.
pub open spec fn addresses_name() -> Seq<u8> {
    seq![65u8, 100, 100, 114, 101, 115, 115, 101, 115, 34]
}

/// What the string says whose content begins `s`.
pub open spec fn name_of(s: Seq<u8>) -> Name {
    if starts(s, node_name()) {
        Name::Node
    } else if starts(s, addresses_name()) {
        Name::Addresses
    } else {
        Name::Other
    }
}

/// Whether a length of four bytes stands in `s` at `i`, in front of a message: its last byte
/// is zero, as it is for a message of less than 16 MiB and for no byte of a message.
pub open spec fn length_at(s: Seq<u8>, i: int) -> bool {
    i + 3 < s.len() && s[i + 3] == 0
}

/// The place before the first byte.
pub open spec fn outset() -> Place {
    Place {
        skip: 0,
        depth: 0,
        string: false,
        escaped: false,
        name: Name::Other,
        node: false,
        addresses: false,
        list: false,
    }
}

/// The place after the byte of `s` at `i`, from the place `p` before it. Between messages
/// only a length or an opening brace counts. In a message a string runs to its closing
/// quote; brackets open and close; a colon says that the last string is a member's name, and
/// a comma ends that member.
pub open spec fn after_byte(s: Seq<u8>, i: int, p: Place) -> Place {
    let c = s[i];
    if p.skip > 0 {
        Place { skip: (p.skip - 1) as usize, ..p }
    } else if p.depth == 0 {
        if length_at(s, i) {
            Place { skip: 3, ..p }
        } else if c == 123 {
            Place { depth: 1, node: false, ..p }
        } else {
            p
        }
    } else if p.string {
        if p.escaped {
            Place { escaped: false, ..p }
        } else if c == 92 {
            Place { escaped: true, ..p }
        } else if c == 34 {
            Place { string: false, ..p }
        } else {
            p
        }
    } else if c == 34 {
        Place { string: true, name: name_of(rest(s, i + 1)), ..p }
    } else if c == 123 || c == 91 {
        Place {
            depth: (p.depth + 1) as usize,
            addresses: p.addresses && p.depth != 1,
            list: if p.depth == 2 {
                c == 91
            } else {
                p.list
            },
            ..p
        }
    } else if c == 125 || c == 93 {
        Place { depth: (p.depth - 1) as usize, ..p }
    } else if c == 58 {
        Place {
            node: if p.depth == 1 {
                p.name == Name::Node
            } else {
                p.node
            },
            addresses: if p.depth == 2 {
                p.name == Name::Addresses
            } else {
                p.addresses
            },
            ..p
        }
    } else if c == 44 {
        Place { node: p.node && p.depth != 1, addresses: p.addresses && p.depth != 2, ..p }
    } else {
        p
    }
}

/// The place after the first `i` bytes of `s`.
pub open spec fn place_at(s: Seq<u8>, i: int) -> Place
    decreases i,
{
    if i <= 0 {
        outset()
    } else {
        after_byte(s, i - 1, place_at(s, i - 1))
    }
}

/// What an address in a map response begins with: a quote and "100.".
pub open spec fn ip_mark() -> Seq<u8> {
    seq![34u8, 49, 48, 48, 46]
}

/// Whether the place is in the `Addresses` list of the `Node` member, between two texts.
pub open spec fn among_addresses(p: Place) -> bool {
    p.skip == 0 && p.depth == 3 && !p.string && p.node && p.addresses && p.list
}

/// Whether a text of the `Addresses` list of the `Node` member begins in `s` at `i`, and
/// begins with "100.".
pub open spec fn own_at(s: Seq<u8>, i: int) -> bool {
    0 <= i < s.len() && among_addresses(place_at(s, i)) && starts(rest(s, i), ip_mark())
}

/// Whether `i` is the first such place.
pub open spec fn first_own(s: Seq<u8>, i: int) -> bool {
    own_at(s, i) && forall|j: int| 0 <= j < i ==> !#[trigger] own_at(s, j)
}

/// There is one first place at most.
pub proof fn lemma_first_own_unique(s: Seq<u8>, a: int, b: int)
    requires
        first_own(s, a),
        first_own(s, b),
    ensures
        a == b,
{
}

/// Whether the place is between the members of a message.
pub open spec fn in_message(p: Place) -> bool {
    p.skip == 0 && p.depth == 1 && !p.string
}

/// `"Node":{"Addresses":["`.
pub open spec fn opening() -> Seq<u8> {
    seq![34u8] + node_name() + seq![58u8, 123, 34] + addresses_name() + seq![58u8, 91, 34]
}

/// A string stays open until its closing quote.
proof fn lemma_string(s: Seq<u8>, a: int, b: int)
    requires
        0 <= a <= b <= s.len(),
        place_at(s, a).string,
        !place_at(s, a).escaped,
        place_at(s, a).skip == 0,
        place_at(s, a).depth > 0,
        forall|k: int| a <= k < b ==> #[trigger] s[k] != 34 && s[k] != 92,
    ensures
        place_at(s, b) == place_at(s, a),
    decreases b - a,
{
    if a < b {
        lemma_string(s, a, b - 1);
        assert(s[b - 1] != 34);
    }
}

/// The escape mark is off outside of strings.
proof fn lemma_unescaped(s: Seq<u8>, i: int)
    ensures
        !place_at(s, i).string ==> !place_at(s, i).escaped,
    decreases i,
{
    if i > 0 {
        lemma_unescaped(s, i - 1);
    }
}

/// Where a message opens its `Node` member and that one's `Addresses` list with a text that
/// begins with "100.", that text is one of the node's own addresses, and no other text
/// before it in the opening is.
pub proof fn lemma_opening(s: Seq<u8>, n: int)
    requires
        0 <= n,
        n + opening().len() + 4 <= s.len(),
        in_message(place_at(s, n)),
        s.subrange(n, n + opening().len()) == opening(),
        s.subrange(n + opening().len(), n + opening().len() + 4) == seq![49u8, 48, 48, 46],
    ensures
        opening().len() == 22,
        own_at(s, n + 21),
        forall|j: int| n <= j < n + 21 ==> !#[trigger] own_at(s, j),
{
    let w = s.subrange(n, n + 22);
    assert(w == opening());
    assert forall|k: int| 0 <= k < 22 implies s[n + k] == #[trigger] opening()[k] by {
        assert(w[k] == s[n + k]);
    }
    lemma_unescaped(s, n);
    assert(s[n] == 34) by {
        assert(opening()[0] == 34);
    }
    assert(rest(s, n + 1).subrange(0, 5) =~= node_name()) by {
        assert forall|k: int| 0 <= k < 5 implies s[n + 1 + k] == node_name()[k] by {
            assert(opening()[1 + k] == node_name()[k]);
        }
    }
    let p1 = place_at(s, n + 1);
    assert(p1.string && p1.name == Name::Node && p1.depth == 1);
    assert forall|k: int| n + 1 <= k < n + 5 implies #[trigger] s[k] != 34 && s[k] != 92 by {
        assert(opening()[k - n] == node_name()[k - n - 1]);
    }
    lemma_string(s, n + 1, n + 5);
    assert(s[n + 5] == 34 && s[n + 6] == 58 && s[n + 7] == 123 && s[n + 8] == 34) by {
        assert(opening()[5] == 34 && opening()[6] == 58 && opening()[7] == 123 && opening()[8]
            == 34);
    }
    let p6 = place_at(s, n + 6);
    assert(!p6.string && p6.name == Name::Node && p6.depth == 1);
    let p7 = place_at(s, n + 7);
    assert(p7.node && p7.depth == 1 && !p7.string);
    let p8 = place_at(s, n + 8);
    assert(p8.node && p8.depth == 2 && !p8.string);
    assert(rest(s, n + 9).subrange(0, 10) =~= addresses_name()) by {
        assert forall|k: int| 0 <= k < 10 implies s[n + 9 + k] == addresses_name()[k] by {
            assert(opening()[9 + k] == addresses_name()[k]);
        }
    }
    assert(rest(s, n + 9)[0] == 65);
    assert(!starts(rest(s, n + 9), node_name())) by {
        if starts(rest(s, n + 9), node_name()) {
            assert(rest(s, n + 9).subrange(0, 5)[0] == 78);
        }
    }
    let p9 = place_at(s, n + 9);
    assert(p9.string && p9.name == Name::Addresses && p9.depth == 2 && p9.node);
    assert forall|k: int| n + 9 <= k < n + 18 implies #[trigger] s[k] != 34 && s[k] != 92 by {
        assert(opening()[k - n] == addresses_name()[k - n - 9]);
    }
    lemma_string(s, n + 9, n + 18);
    assert(s[n + 18] == 34 && s[n + 19] == 58 && s[n + 20] == 91 && s[n + 21] == 34) by {
        assert(opening()[18] == 34 && opening()[19] == 58 && opening()[20] == 91 && opening()[21]
            == 34);
    }
    let p19 = place_at(s, n + 19);
    assert(!p19.string && p19.name == Name::Addresses && p19.depth == 2 && p19.node);
    let p20 = place_at(s, n + 20);
    assert(p20.addresses && p20.node && p20.depth == 2 && !p20.string);
    let p21 = place_at(s, n + 21);
    assert(among_addresses(p21));
    assert(rest(s, n + 21).subrange(0, 5) =~= ip_mark()) by {
        let four = s.subrange(n + 22, n + 26);
        assert forall|k: int| 0 <= k < 4 implies s[n + 22 + k] == four[k] by {}
        assert(s[n + 22] == 49 && s[n + 23] == 48 && s[n + 24] == 48 && s[n + 25] == 46) by {
            assert(four[0] == 49 && four[1] == 48 && four[2] == 48 && four[3] == 46);
        }
    }
    assert forall|j: int| n <= j < n + 21 implies !#[trigger] own_at(s, j) by {
        if n < j < n + 6 {
            if j <= n + 5 {
                assert forall|k: int| n + 1 <= k < j implies #[trigger] s[k] != 34 && s[k]
                    != 92 by {
                    assert(opening()[k - n] == node_name()[k - n - 1]);
                }
                lemma_string(s, n + 1, j);
            }
        } else if n + 9 <= j < n + 19 {
            assert forall|k: int| n + 9 <= k < j implies #[trigger] s[k] != 34 && s[k] != 92 by {
                assert(opening()[k - n] == addresses_name()[k - n - 9]);
            }
            lemma_string(s, n + 9, j);
        } else {
            assert(j == n || j == n + 6 || j == n + 7 || j == n + 8 || j == n + 19 || j == n + 20);
        }
    }
}

/// Moves the place over the byte at `i`.
fn advance(raw: &[u8], i: usize, p: Place) -> (r: Place)
    requires
        i < raw@.len(),
        p.depth <= i,
    ensures
        r == after_byte(raw@, i as int, p),
        r.depth <= i + 1,
{
    let c: u8 = raw[i];
    let mut r: Place = p;
    if p.skip > 0 {
        r.skip = p.skip - 1;
    } else if p.depth == 0 {
        if raw.len() - i > 3 && raw[i + 3] == 0 {
            r.skip = 3;
        } else if c == 123 {
            r.depth = 1;
            r.node = false;
        }
    } else if p.string {
        if p.escaped {
            r.escaped = false;
        } else if c == 92 {
            r.escaped = true;
        } else if c == 34 {
            r.string = false;
        }
    } else if c == 34 {
        r.string = true;
        let after = slice_subrange(raw, i + 1, raw.len());
        let node: [u8; 5] = [78u8, 111, 100, 101, 34];
        let addresses: [u8; 10] = [65u8, 100, 100, 114, 101, 115, 115, 101, 115, 34];
        assert(node@ =~= node_name());
        assert(addresses@ =~= addresses_name());
        r.name = if starts_with(after, node.as_slice()) {
            Name::Node
        } else if starts_with(after, addresses.as_slice()) {
            Name::Addresses
        } else {
            Name::Other
        };
    } else if c == 123 || c == 91 {
        r.depth = p.depth + 1;
        if p.depth == 1 {
            r.addresses = false;
        }
        if p.depth == 2 {
            r.list = c == 91;
        }
    } else if c == 125 || c == 93 {
        r.depth = p.depth - 1;
    } else if c == 58 {
        if p.depth == 1 {
            r.node = p.name == Name::Node;
        }
        if p.depth == 2 {
            r.addresses = p.name == Name::Addresses;
        }
    } else if c == 44 {
        if p.depth == 1 {
            r.node = false;
        }
        if p.depth == 2 {
            r.addresses = false;
        }
    }
    r
}

/// Finds the first text that begins with "100." in the `Addresses` list of the `Node`
/// member: where its opening quote stands.
pub fn find_own(raw: &[u8]) -> (r: Option<usize>)
    ensures
        match r {
            Some(i) => first_own(raw@, i as int),
            None => forall|j: int| !#[trigger] own_at(raw@, j),
        },
{
    let mark: [u8; 5] = [34u8, 49, 48, 48, 46];
    assert(mark@ =~= ip_mark());
    let mut p = Place {
        skip: 0,
        depth: 0,
        string: false,
        escaped: false,
        name: Name::Other,
        node: false,
        addresses: false,
        list: false,
    };
    let mut i: usize = 0;
    while i < raw.len()
        invariant
            i <= raw@.len(),
            mark@ == ip_mark(),
            p == place_at(raw@, i as int),
            p.depth <= i,
            forall|j: int| 0 <= j < i ==> !#[trigger] own_at(raw@, j),
        decreases raw@.len() - i,
    {
        let here: bool = p.skip == 0 && p.depth == 3 && !p.string && p.node && p.addresses
            && p.list;
        if here && starts_with(slice_subrange(raw, i, raw.len()), mark.as_slice()) {
            assert(own_at(raw@, i as int));
            return Some(i);
        }
        p = advance(raw, i, p);
        i = i + 1;
    }
    None
}

} // verus!
