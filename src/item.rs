use vstd::prelude::*;
use crate::text::{i32_of_text, int_text, parse_i32, i32_to_text, same_text};

verus! {

pub open spec fn is_hex_digit(c: char) -> bool {
    ('0' <= c && c <= '9') || ('a' <= c && c <= 'f') || ('A' <= c && c <= 'F')
}

/// A non-empty text of whole bytes written as pairs of hex digits.
pub open spec fn is_hex_text(s: Seq<char>) -> bool {
    s.len() > 0 && s.len() % 2 == 0 && forall|i: int| 0 <= i < s.len() ==> is_hex_digit(#[trigger] s[i])
}

/// The byte groups of `s` in reverse order. Groups are taken left to right as
/// pairs of adjacent hex digits; a character that starts no such pair is skipped.
pub open spec fn reverse_byte_groups(s: Seq<char>) -> Seq<char>
    decreases s.len(),
{
    if s.len() < 2 {
        Seq::empty()
    } else if is_hex_digit(s[0]) && is_hex_digit(s[1]) {
        reverse_byte_groups(s.skip(2)) + s.take(2)
    } else {
        reverse_byte_groups(s.skip(1))
    }
}

/// Text of whole hex byte pairs, the empty text included.
pub open spec fn hex_pairs(s: Seq<char>) -> bool {
    s.len() % 2 == 0 && forall|i: int| 0 <= i < s.len() ==> is_hex_digit(#[trigger] s[i])
}

proof fn lemma_reverse_concat(a: Seq<char>, b: Seq<char>)
    requires
        hex_pairs(a),
        hex_pairs(b),
    ensures
        reverse_byte_groups(a + b) == reverse_byte_groups(b) + reverse_byte_groups(a),
        hex_pairs(reverse_byte_groups(a)),
    decreases a.len(),
{
    if a.len() == 0 {
        assert(a + b =~= b);
        assert(reverse_byte_groups(b) + reverse_byte_groups(a) =~= reverse_byte_groups(b));
    } else {
        let ab = a + b;
        assert(ab[0] == a[0] && ab[1] == a[1]);
        assert(ab.skip(2) =~= a.skip(2) + b);
        assert(ab.take(2) =~= a.take(2));
        let a2 = a.skip(2);
        assert(hex_pairs(a2)) by {
            assert forall|i: int| 0 <= i < a2.len() implies is_hex_digit(#[trigger] a2[i]) by {
                assert(a2[i] == a[i + 2]);
            }
        }
        lemma_reverse_concat(a2, b);
        assert(reverse_byte_groups(b) + reverse_byte_groups(a) =~= reverse_byte_groups(b) + (
        reverse_byte_groups(a2) + a.take(2)));
        let r = reverse_byte_groups(a);
        let r2 = reverse_byte_groups(a2);
        assert(r =~= r2 + a.take(2));
        assert forall|i: int| 0 <= i < r.len() implies is_hex_digit(#[trigger] r[i]) by {
            if i < r2.len() {
                assert(r[i] == r2[i]);
            } else {
                assert(r[i] == a[i - r2.len()]);
            }
        }
    }
}

/// Reversing the byte groups of a hex text twice gives the text back.
pub proof fn lemma_reverse_byte_groups_involution(s: Seq<char>)
    requires
        is_hex_text(s),
    ensures
        reverse_byte_groups(reverse_byte_groups(s)) == s,
    decreases s.len(),
{
    let head = s.take(2);
    let rest = s.skip(2);
    assert(s.len() >= 2);
    assert(head.len() == 2 && head[0] == s[0] && head[1] == s[1]);
    assert(hex_pairs(rest)) by {
        assert forall|i: int| 0 <= i < rest.len() implies is_hex_digit(#[trigger] rest[i]) by {
            assert(rest[i] == s[i + 2]);
        }
    }
    assert(hex_pairs(head)) by {
        assert forall|i: int| 0 <= i < head.len() implies is_hex_digit(#[trigger] head[i]) by {
            assert(head[i] == s[i]);
        }
    }
    assert(head.skip(2) =~= Seq::<char>::empty());
    assert(head.take(2) =~= head);
    assert(reverse_byte_groups(head.skip(2)) =~= Seq::<char>::empty());
    assert(reverse_byte_groups(head) =~= head);
    lemma_reverse_concat(rest, Seq::empty());
    assert(rest + Seq::<char>::empty() =~= rest);
    let rr = reverse_byte_groups(rest);
    lemma_reverse_concat(rr, head);
    if rest.len() > 0 {
        lemma_reverse_byte_groups_involution(rest);
    } else {
        assert(rr =~= Seq::<char>::empty());
    }
    assert(reverse_byte_groups(rr) == rest);
    assert(reverse_byte_groups(s) == rr + head);
    assert(head + rest =~= s);
}

/// An integer item written to the device and read back from what was written
/// is unchanged.
pub proof fn lemma_int_round_trip(item: ConfItem, read_back: ConfItem)
    requires
        item is Int,
        item.decoded_as(read_back, item.wire_value()),
    ensures
        read_back == item,
{
    if let ConfItem::Int { val, .. } = item {
        crate::text::lemma_int_text_round_trip(val);
    }
}

proof fn lemma_first_choice_exists(values: Seq<Choice>, v: i32, k: int)
    requires
        0 <= k < values.len(),
        values[k].val == v,
    ensures
        exists|i: int| is_first_choice(values, v, i),
    decreases k,
{
    if exists|j: int| 0 <= j < k && #[trigger] values[j].val == v {
        let j = choose|j: int| 0 <= j < k && #[trigger] values[j].val == v;
        lemma_first_choice_exists(values, v, j);
    } else {
        assert(is_first_choice(values, v, k));
    }
}

/// A valid choice item written to the device and read back selects an option
/// with the same value; where the options' values are distinct, the item is
/// unchanged.
pub proof fn lemma_choice_round_trip(item: ConfItem, read_back: ConfItem)
    requires
        item is Choice,
        item.is_valid(),
        item.decoded_as(read_back, item.wire_value()),
    ensures
        match (item, read_back) {
            (ConfItem::Choice { val, values, .. }, ConfItem::Choice { val: val2, .. }) => {
                &&& val2 < values@.len()
                &&& values@[val2 as int].val == values@[val as int].val
                &&& (forall|i: int, j: int|
                    0 <= i < j < values@.len() ==> values@[i].val != values@[j].val) ==> read_back
                    == item
            },
            _ => false,
        },
{
    if let ConfItem::Choice { val, values, .. } = item {
        let x = values@[val as int].val;
        crate::text::lemma_int_text_round_trip(x);
        lemma_first_choice_exists(values@, x, val as int);
        let c = choose|c: int| is_first_choice(values@, x, c);
        assert(choice_position(values@, x) == Some(c));
        if forall|i: int, j: int| 0 <= i < j < values@.len() ==> values@[i].val != values@[j].val {
            if c < val as int {
                assert(values@[c].val != values@[val as int].val);
            } else if c > val as int {
                assert(values@[val as int].val != x);
            }
        }
    }
}

/// One option of a choice item: the value written to the device and its description.
pub struct Choice {
    pub val: i32,
    pub desc: String,
}

/// A configuration item. `id` is the key on the wire, `caption` the text shown
/// for it; `val` holds the current value.
#[allow(inconsistent_fields)]
pub enum ConfItem {
    Int { id: String, caption: String, val: i32, vmax: i32, vmin: i32 },
    Hex { id: String, caption: String, val: String, maxlen: usize, lsb: bool },
    Text { id: String, caption: String, val: String, maxlen: usize },
    Choice { id: String, caption: String, val: usize, values: Vec<Choice>, default_index: usize },
    Check { id: String, caption: String, val: bool },
}

/// Whether `i` is the first option whose value is `v`.
pub open spec fn is_first_choice(values: Seq<Choice>, v: i32, i: int) -> bool {
    0 <= i < values.len() && values[i].val == v && forall|j: int|
        0 <= j < i ==> #[trigger] values[j].val != v
}

/// Index of the first option whose value is `v`.
pub open spec fn choice_position(values: Seq<Choice>, v: i32) -> Option<int> {
    if exists|i: int| is_first_choice(values, v, i) {
        Some(choose|i: int| is_first_choice(values, v, i))
    } else {
        None
    }
}

impl ConfItem {
    pub open spec fn id_spec(&self) -> String {
        match self {
            ConfItem::Int { id, .. } => *id,
            ConfItem::Hex { id, .. } => *id,
            ConfItem::Text { id, .. } => *id,
            ConfItem::Choice { id, .. } => *id,
            ConfItem::Check { id, .. } => *id,
        }
    }

    pub open spec fn caption_spec(&self) -> String {
        match self {
            ConfItem::Int { caption, .. } => *caption,
            ConfItem::Hex { caption, .. } => *caption,
            ConfItem::Text { caption, .. } => *caption,
            ConfItem::Choice { caption, .. } => *caption,
            ConfItem::Check { caption, .. } => *caption,
        }
    }

    /// The item's value satisfies its kind's constraint.
    pub open spec fn is_valid(&self) -> bool {
        match self {
            ConfItem::Int { .. } => true,
            ConfItem::Check { .. } => true,
            ConfItem::Text { val, maxlen, .. } => val@.len() <= *maxlen,
            ConfItem::Hex { val, maxlen, .. } => is_hex_text(val@) && val@.len() / 2 <= *maxlen,
            ConfItem::Choice { val, values, .. } => *val < values@.len(),
        }
    }

    /// The value as the device reads it.
    pub open spec fn wire_value(&self) -> Seq<char> {
        match self {
            ConfItem::Int { val, .. } => int_text(*val as int),
            ConfItem::Check { val, .. } => if *val {
                seq!['1']
            } else {
                seq!['0']
            },
            ConfItem::Text { val, .. } => val@,
            ConfItem::Hex { val, lsb, .. } => if *lsb {
                reverse_byte_groups(val@)
            } else {
                val@
            },
            ConfItem::Choice { val, values, .. } => int_text(values@[*val as int].val as int),
        }
    }

    /// The command that writes the item: its id, a space, its wire value.
    pub open spec fn command_spec(&self) -> Seq<char> {
        self.id_spec()@ + seq![' '] + self.wire_value()
    }

    /// `new` is `self` after reading the wire value `v` from the device: only
    /// the value changes.
    pub open spec fn decoded_as(&self, new: ConfItem, v: Seq<char>) -> bool {
        match (*self, new) {
            (
                ConfItem::Int { id, caption, val, vmax, vmin },
                ConfItem::Int { id: id2, caption: caption2, val: val2, vmax: vmax2, vmin: vmin2 },
            ) => id2 == id && caption2 == caption && vmax2 == vmax && vmin2 == vmin && val2 == match i32_of_text(v) {
                Some(x) => x,
                None => val,
            },
            (
                ConfItem::Hex { id, caption, val, maxlen, lsb },
                ConfItem::Hex { id: id2, caption: caption2, val: val2, maxlen: maxlen2, lsb: lsb2 },
            ) => id2 == id && caption2 == caption && maxlen2 == maxlen && lsb2 == lsb && val2@ == if lsb {
                reverse_byte_groups(v)
            } else {
                v
            },
            (
                ConfItem::Text { id, caption, val, maxlen },
                ConfItem::Text { id: id2, caption: caption2, val: val2, maxlen: maxlen2 },
            ) => id2 == id && caption2 == caption && maxlen2 == maxlen && val2@ == v,
            (
                ConfItem::Choice { id, caption, val, values, default_index },
                ConfItem::Choice {
                    id: id2,
                    caption: caption2,
                    val: val2,
                    values: values2,
                    default_index: default_index2,
                },
            ) => id2 == id && caption2 == caption && values2 == values && default_index2
                == default_index && val2 as int == match i32_of_text(v) {
                Some(x) => match choice_position(values@, x) {
                    Some(i) => i,
                    None => default_index as int,
                },
                None => default_index as int,
            },
            (
                ConfItem::Check { id, caption, val },
                ConfItem::Check { id: id2, caption: caption2, val: val2 },
            ) => id2 == id && caption2 == caption && val2 == (v == seq!['1']),
            _ => false,
        }
    }

    pub fn id(&self) -> (r: &String)
        ensures
            *r == self.id_spec(),
    {
        match self {
            ConfItem::Int { id, .. } => id,
            ConfItem::Hex { id, .. } => id,
            ConfItem::Text { id, .. } => id,
            ConfItem::Choice { id, .. } => id,
            ConfItem::Check { id, .. } => id,
        }
    }

    pub fn caption(&self) -> (r: &String)
        ensures
            *r == self.caption_spec(),
    {
        match self {
            ConfItem::Int { caption, .. } => caption,
            ConfItem::Hex { caption, .. } => caption,
            ConfItem::Text { caption, .. } => caption,
            ConfItem::Choice { caption, .. } => caption,
            ConfItem::Check { caption, .. } => caption,
        }
    }

    /// Whether the item's wire key is `wid`.
    pub fn is(&self, wid: &str) -> (r: bool)
        ensures
            r == (self.id_spec()@ == wid@),
    {
        same_text(self.id().as_str(), wid)
    }

    /// Whether the value may be written to the device, and the item's caption.
    pub fn validate(&self) -> (r: (bool, &String))
        ensures
            r.0 == self.is_valid(),
            *r.1 == self.caption_spec(),
    {
        let ok = match self {
            ConfItem::Int { .. } => true,
            ConfItem::Check { .. } => true,
            ConfItem::Text { val, maxlen, .. } => val.as_str().unicode_len() <= *maxlen,
            ConfItem::Hex { val, maxlen, .. } => {
                let s = val.as_str();
                ConfItem::is_hex(s) && s.unicode_len() / 2 <= *maxlen
            },
            ConfItem::Choice { val, values, .. } => *val < values.len(),
        };
        (ok, self.caption())
    }

    /// Whether `s` is a non-empty run of whole hex byte pairs.
    pub fn is_hex(s: &str) -> (r: bool)
        ensures
            r == is_hex_text(s@),
    {
        let n = s.unicode_len();
        if n == 0 || n % 2 != 0 {
            return false;
        }
        let mut i: usize = 0;
        while i < n
            invariant
                n == s@.len(),
                i <= n,
                forall|j: int| 0 <= j < i ==> is_hex_digit(#[trigger] s@[j]),
            decreases n - i,
        {
            let c = s.get_char(i);
            if !(('0' <= c && c <= '9') || ('a' <= c && c <= 'f') || ('A' <= c && c <= 'F')) {
                return false;
            }
            i = i + 1;
        }
        true
    }

    /// The byte groups of `s` in reverse order.
    pub fn invert(s: &str) -> (r: String)
        ensures
            r@ == reverse_byte_groups(s@),
    {
        let n = s.unicode_len();
        let mut out = String::new();
        let mut i: usize = 0;
        assert(s@.skip(0) =~= s@);
        assert(reverse_byte_groups(s@) =~= reverse_byte_groups(s@.skip(0)) + out@);
        while i < n
            invariant
                n == s@.len(),
                i <= n,
                reverse_byte_groups(s@) == reverse_byte_groups(s@.skip(i as int)) + out@,
            decreases n - i,
        {
            let rest = Ghost(s@.skip(i as int));
            if i + 1 < n && ConfItem::is_hex_digit_char(s.get_char(i)) && ConfItem::is_hex_digit_char(
                s.get_char(i + 1),
            ) {
                let pair = s.substring_char(i, i + 2);
                assert(rest@.skip(2) =~= s@.skip(i + 2));
                assert(rest@.take(2) =~= pair@);
                let mut next = String::from_str(pair);
                next.append(out.as_str());
                assert(reverse_byte_groups(rest@) == reverse_byte_groups(rest@.skip(2)) + rest@.take(
                    2,
                ));
                assert(reverse_byte_groups(s@.skip(i + 2)) + next@ =~= reverse_byte_groups(
                    s@.skip(i + 2),
                ) + pair@ + out@);
                out = next;
                i = i + 2;
            } else {
                if i + 1 < n {
                    assert(rest@.skip(1) =~= s@.skip(i + 1));
                } else {
                    assert(reverse_byte_groups(rest@) =~= Seq::<char>::empty());
                    assert(s@.skip(i + 1) =~= Seq::<char>::empty());
                    assert(reverse_byte_groups(s@.skip(i + 1)) =~= Seq::<char>::empty());
                }
                i = i + 1;
            }
        }
        assert(s@.skip(n as int) =~= Seq::<char>::empty());
        assert(out@ =~= reverse_byte_groups(s@.skip(n as int)) + out@);
        out
    }

    /// Sets the value from the wire value `v` read from the device.
    pub fn from_device(&mut self, v: &str)
        ensures
            old(self).decoded_as(*final(self), v@),
    {
        match self {
            ConfItem::Check { val, .. } => {
                proof {
                    reveal_strlit("1");
                    assert("1"@ =~= seq!['1']);
                }
                *val = same_text(v, "1");
            },
            ConfItem::Int { val, .. } => {
                match parse_i32(v) {
                    Some(x) => *val = x,
                    None => {},
                }
            },
            ConfItem::Choice { values, val, default_index, .. } => {
                *val = match parse_i32(v) {
                    Some(x) => match ConfItem::position(values, x) {
                        Some(i) => i,
                        None => *default_index,
                    },
                    None => *default_index,
                };
            },
            ConfItem::Text { val, .. } => *val = String::from_str(v),
            ConfItem::Hex { val, lsb, .. } => {
                if *lsb {
                    *val = ConfItem::invert(v);
                } else {
                    *val = String::from_str(v);
                }
            },
        }
    }

    /// Index of the first option whose value is `v`.
    fn position(values: &Vec<Choice>, v: i32) -> (r: Option<usize>)
        ensures
            match r {
                Some(i) => choice_position(values@, v) == Some(i as int),
                None => choice_position(values@, v) is None,
            },
    {
        let mut i: usize = 0;
        while i < values.len()
            invariant
                i <= values@.len(),
                forall|j: int| 0 <= j < i ==> #[trigger] values@[j].val != v,
            decreases values@.len() - i,
        {
            if values[i].val == v {
                assert(is_first_choice(values@, v, i as int));
                proof {
                    let c = choose|c: int| is_first_choice(values@, v, c);
                    assert(c == i as int) by {
                        if c < i as int {
                            assert(values@[c].val != v);
                        } else if c > i as int {
                            assert(values@[i as int].val != v);
                        }
                    }
                }
                return Some(i);
            }
            i = i + 1;
        }
        assert(!exists|c: int| is_first_choice(values@, v, c));
        None
    }

    /// The command that writes the item's value: its id, a space, and the
    /// value as the device reads it.
    pub fn to_device(&self) -> (r: String)
        requires
            self.is_valid(),
        ensures
            r@ == self.command_spec(),
    {
        let value = match self {
            ConfItem::Check { val, .. } => {
                proof {
                    reveal_strlit("1");
                    reveal_strlit("0");
                }
                if *val {
                    String::from_str("1")
                } else {
                    String::from_str("0")
                }
            },
            ConfItem::Int { val, .. } => i32_to_text(*val),
            ConfItem::Hex { val, lsb, .. } => {
                if *lsb {
                    ConfItem::invert(val.as_str())
                } else {
                    val.clone()
                }
            },
            ConfItem::Text { val, .. } => val.clone(),
            ConfItem::Choice { val, values, .. } => i32_to_text(values[*val].val),
        };
        proof {
            reveal_strlit(" ");
        }
        let mut r = self.id().clone();
        r.append(" ");
        r.append(value.as_str());
        assert(r@ =~= self.command_spec());
        r
    }

    fn is_hex_digit_char(c: char) -> (r: bool)
        ensures
            r == is_hex_digit(c),
    {
        ('0' <= c && c <= '9') || ('a' <= c && c <= 'f') || ('A' <= c && c <= 'F')
    }
}

} // verus!
