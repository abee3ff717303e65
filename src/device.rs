use vstd::prelude::*;
use crate::item::ConfItem;
use crate::channel::DeviceError;
use crate::signature::{Signature, parse_signature, signature_match, version_of};

verus! {

/// What the configuration line pattern `^\[(.+)\].*:(.+)` captures of a line:
/// the item's id and its wire value.
pub uninterp spec fn config_match(line: Seq<char>) -> Option<(Seq<char>, Seq<char>)>;

/// The configuration line format `[<id>]<junk>:<value>`: `line` starts with
/// `[`, a non-empty `id` and `]`, and after some text and `:` holds a non-empty
/// `v`, which runs to the end of the line or to a newline.
pub open spec fn config_line_shape(line: Seq<char>, id: Seq<char>, v: Seq<char>) -> bool {
    &&& id.len() > 0
    &&& v.len() > 0
    &&& exists|junk: Seq<char>, rest: Seq<char>|
        line == seq!['['] + id + seq![']'] + junk + seq![':'] + v + rest && (rest.len() == 0
            || rest[0] == '\n')
}

/// Relies on `regex::Regex::captures` with the configuration line pattern: the
/// id and the value that it captures, or `None` where the line does not match.
/// A match has the shape that the pattern spells out.
#[verifier::external_body]
fn config_captures(line: &str) -> (r: Option<(String, String)>)
    ensures
        match r {
            Some((id, v)) => config_match(line@) == Some((id@, v@)) && config_line_shape(
                line@,
                id@,
                v@,
            ),
            None => config_match(line@) is None,
        },
{
    let re = regex::Regex::new(r"^\[(.+)\].*:(.+)").unwrap();
    re.captures(line).map(|c| (c[1].to_string(), c[2].to_string()))
}

/// The (id, value) pairs of the lines that are configuration lines, in order.
pub open spec fn config_pairs(lines: Seq<Seq<char>>) -> Seq<(Seq<char>, Seq<char>)>
    decreases lines.len(),
{
    if lines.len() == 0 {
        Seq::empty()
    } else {
        let r = config_pairs(lines.drop_last());
        match config_match(lines.last()) {
            Some(p) => r.push(p),
            None => r,
        }
    }
}

pub open spec fn pair_views(v: Seq<(String, String)>) -> Seq<(Seq<char>, Seq<char>)> {
    v.map_values(|p: (String, String)| (p.0@, p.1@))
}

/// The (id, value) pairs of the reply to the configuration query: none where
/// the reply did not report success.
pub fn parse_config(ok: bool, lines: &Vec<String>) -> (r: Vec<(String, String)>)
    ensures
        pair_views(r@) == if ok {
            config_pairs(crate::channel::views(lines@))
        } else {
            Seq::empty()
        },
        forall|j: int|
            0 <= j < r@.len() ==> exists|i: int|
                0 <= i < lines@.len() && config_line_shape(lines@[i]@, (#[trigger] r@[j]).0@, r@[j].1@),
{
    let mut out: Vec<(String, String)> = Vec::new();
    if !ok {
        assert(pair_views(out@) =~= Seq::empty());
        return out;
    }
    let mut i: usize = 0;
    while i < lines.len()
        invariant
            i <= lines@.len(),
            pair_views(out@) == config_pairs(crate::channel::views(lines@).take(i as int)),
            forall|j: int|
                0 <= j < out@.len() ==> exists|k: int|
                    0 <= k < i && config_line_shape(lines@[k]@, (#[trigger] out@[j]).0@, out@[j].1@),
        decreases lines@.len() - i,
    {
        let ghost ls = crate::channel::views(lines@);
        assert(ls.take(i + 1).drop_last() =~= ls.take(i as int));
        assert(ls.take(i + 1).last() == lines@[i as int]@);
        let ghost before = out@;
        match config_captures(lines[i].as_str()) {
            Some(p) => {
                out.push(p);
                assert(pair_views(out@) =~= pair_views(before).push((p.0@, p.1@)));
                assert(config_line_shape(lines@[i as int]@, out@[out@.len() - 1].0@, out@[out@.len() - 1].1@));
            },
            None => {},
        }
        i = i + 1;
    }
    assert(crate::channel::views(lines@).take(lines@.len() as int) =~= crate::channel::views(lines@));
    out
}



/// `after` is `before` with item `i` of section `s` decoded from the wire value `v`.
pub open spec fn item_replaced(before: Seq<Section>, after: Seq<Section>, s: int, i: int, v: Seq<char>) -> bool {
    &&& after == before.update(s, after[s])
    &&& after[s].name == before[s].name
    &&& after[s].help == before[s].help
    &&& after[s].items@ == before[s].items@.update(i, after[s].items@[i])
    &&& before[s].items@[i].decoded_as(after[s].items@[i], v)
}

/// `after` is `before` once the wire value `v` went to the first item whose id is `id`.
pub open spec fn value_applied(before: Seq<Section>, after: Seq<Section>, id: Seq<char>, v: Seq<char>) -> bool {
    &&& (!has_item(before, id) ==> after == before)
    &&& forall|s: int, i: int| is_first_item(before, id, s, i) ==> item_replaced(before, after, s, i, v)
}

/// `after` is `before` once each (id, value) pair went, in order, to the first
/// item with that id.
pub open spec fn values_applied(before: Seq<Section>, after: Seq<Section>, pairs: Seq<(Seq<char>, Seq<char>)>) -> bool
    decreases pairs.len(),
{
    if pairs.len() == 0 {
        after == before
    } else {
        exists|mid: Seq<Section>| values_applied(before, mid, pairs.drop_last()) && #[trigger] value_applied(mid, after, pairs.last().0, pairs.last().1)
    }
}

proof fn lemma_first_item_unique(secs: Seq<Section>, id: Seq<char>, s: int, i: int, s2: int, i2: int)
    requires
        is_first_item(secs, id, s, i),
        is_first_item(secs, id, s2, i2),
    ensures
        s == s2 && i == i2,
{
    if s < s2 || (s == s2 && i < i2) {
        assert(secs[s].items@[i].id_spec()@ != id);
    } else if s2 < s || (s == s2 && i2 < i) {
        assert(secs[s2].items@[i2].id_spec()@ != id);
    }
}

/// The items of all sections in order, each with its section's name.
pub open spec fn flat_items(secs: Seq<Section>) -> Seq<(ConfItem, String)>
    decreases secs.len(),
{
    if secs.len() == 0 {
        Seq::empty()
    } else {
        flat_items(secs.drop_last()) + secs.last().items@.map_values(
            |it: ConfItem| (it, secs.last().name),
        )
    }
}

/// Whether `k` is the first item of `fl` that is not valid.
pub open spec fn is_first_invalid(fl: Seq<(ConfItem, String)>, k: int) -> bool {
    0 <= k < fl.len() && !fl[k].0.is_valid() && forall|j: int| 0 <= j < k ==> (#[trigger] fl[j]).0.is_valid()
}

/// Where the write of `fl` stops: its first invalid item, or its end.
pub open spec fn write_stop(fl: Seq<(ConfItem, String)>) -> int {
    if exists|k: int| is_first_invalid(fl, k) {
        choose|k: int| is_first_invalid(fl, k)
    } else {
        fl.len() as int
    }
}

proof fn lemma_flat_prefix(secs: Seq<Section>, t: int)
    requires
        0 <= t <= secs.len(),
    ensures
        flat_items(secs.take(t)).len() <= flat_items(secs).len(),
        forall|j: int| 0 <= j < flat_items(secs.take(t)).len() ==> #[trigger] flat_items(secs)[j] == flat_items(secs.take(t))[j],
    decreases secs.len(),
{
    if t == secs.len() {
        assert(secs.take(t) =~= secs);
    } else {
        let d = secs.drop_last();
        assert(d.take(t) =~= secs.take(t));
        lemma_flat_prefix(d, t);
    }
}

/// One command of a configuration write, with the field it writes.
pub struct WriteCommand {
    pub command: String,
    pub caption: String,
    pub section: String,
}

/// A field named by its caption and its section's name.
pub struct FieldRef {
    pub caption: String,
    pub section: String,
}

/// The commands that write a configuration, in order, and the first field
/// that is not valid, before which the write stops.
pub struct WritePlan {
    pub commands: Vec<WriteCommand>,
    pub invalid: Option<FieldRef>,
}

/// What a configuration write does next.
pub enum WriteStep {
    /// Send the plan's command at this index.
    Send(usize),
    /// The command for this field could not be sent: the write stops there.
    SendFailed(FieldRef),
    /// This field is not valid: the write stops before it.
    Invalid(FieldRef),
    /// Every item was written.
    Done,
}

impl WritePlan {
    /// The next step of the write once the first `sent` commands went out;
    /// `last_ok` tells whether the last of them could be sent.
    pub fn step(&self, sent: usize, last_ok: bool) -> (r: WriteStep)
        requires
            sent <= self.commands@.len(),
        ensures
            sent > 0 && !last_ok ==> (r matches WriteStep::SendFailed(f) && f.caption
                == self.commands@[sent - 1].caption && f.section == self.commands@[sent - 1].section),
            (sent == 0 || last_ok) && sent < self.commands@.len() ==> (r matches WriteStep::Send(k)
                && k == sent),
            (sent == 0 || last_ok) && sent == self.commands@.len() ==> match self.invalid {
                Some(f) => r matches WriteStep::Invalid(g) && g.caption == f.caption && g.section
                    == f.section,
                None => r is Done,
            },
    {
        if sent > 0 && !last_ok {
            let c = &self.commands[sent - 1];
            return WriteStep::SendFailed(FieldRef { caption: c.caption.clone(), section: c.section.clone() });
        }
        if sent < self.commands.len() {
            return WriteStep::Send(sent);
        }
        match &self.invalid {
            Some(f) => WriteStep::Invalid(FieldRef { caption: f.caption.clone(), section: f.section.clone() }),
            None => WriteStep::Done,
        }
    }
}

/// A group of items shown together.
pub struct Section {
    pub name: String,
    pub help: String,
    pub items: Vec<ConfItem>,
}

/// The configuration schema of one kind of device.
pub struct Device {
    pub signature: Signature,
    pub title: String,
    pub sections: Vec<Section>,
}

/// The known devices.
pub struct Root {
    pub spec: Vec<Device>,
}

/// Item `i` of section `s` is the first item, in section order then item
/// order, whose id is `id`.
pub open spec fn is_first_item(secs: Seq<Section>, id: Seq<char>, s: int, i: int) -> bool {
    &&& 0 <= s < secs.len()
    &&& 0 <= i < secs[s].items@.len()
    &&& secs[s].items@[i].id_spec()@ == id
    &&& forall|t: int, j: int|
        0 <= t < secs.len() && 0 <= j < secs[t].items@.len() && (t < s || (t == s && j < i))
            ==> #[trigger] secs[t].items@[j].id_spec()@ != id
}

pub open spec fn has_item(secs: Seq<Section>, id: Seq<char>) -> bool {
    exists|s: int, i: int|
        0 <= s < secs.len() && 0 <= i < secs[s].items@.len() && #[trigger] secs[s].items@[i].id_spec()@
            == id
}

impl Section {
    /// Index of the first item whose id is `s`.
    pub fn find(&self, s: &str) -> (r: Option<usize>)
        ensures
            match r {
                Some(i) => i < self.items@.len() && self.items@[i as int].id_spec()@ == s@ && forall|
                    j: int,
                | 0 <= j < i ==> #[trigger] self.items@[j].id_spec()@ != s@,
                None => forall|j: int|
                    0 <= j < self.items@.len() ==> #[trigger] self.items@[j].id_spec()@ != s@,
            },
    {
        let mut i: usize = 0;
        while i < self.items.len()
            invariant
                i <= self.items@.len(),
                forall|j: int| 0 <= j < i ==> #[trigger] self.items@[j].id_spec()@ != s@,
            decreases self.items@.len() - i,
        {
            if self.items[i].is(s) {
                return Some(i);
            }
            i = i + 1;
        }
        None
    }
}

impl Device {

    /// The write of every item in section order then item order, up to the
    /// first item that is not valid.
    pub fn save_config(&self) -> (r: WritePlan)
        ensures
            ({
                let fl = flat_items(self.sections@);
                let k = write_stop(fl);
                &&& r.commands@.len() == k
                &&& forall|j: int| 0 <= j < k ==> {
                    &&& (#[trigger] r.commands@[j]).command@ == fl[j].0.command_spec()
                    &&& r.commands@[j].caption == fl[j].0.caption_spec()
                    &&& r.commands@[j].section == fl[j].1
                }
                &&& (r.invalid is None <==> k == fl.len())
                &&& r.invalid matches Some(f) ==> f.caption == fl[k].0.caption_spec() && f.section == fl[k].1
            }),
    {
        let ghost secs = self.sections@;
        let ghost mut done: Seq<(ConfItem, String)> = Seq::empty();
        let mut commands: Vec<WriteCommand> = Vec::new();
        let mut s: usize = 0;
        assert(secs.take(0) =~= Seq::<Section>::empty());
        while s < self.sections.len()
            invariant
                secs == self.sections@,
                s <= secs.len(),
                done == flat_items(secs.take(s as int)),
                commands@.len() == done.len(),
                forall|j: int| 0 <= j < done.len() ==> (#[trigger] done[j]).0.is_valid(),
                forall|j: int| 0 <= j < done.len() ==> {
                    &&& (#[trigger] commands@[j]).command@ == done[j].0.command_spec()
                    &&& commands@[j].caption == done[j].0.caption_spec()
                    &&& commands@[j].section == done[j].1
                },
            decreases secs.len() - s,
        {
            let sec = &self.sections[s];
            let ghost prev = done;
            let ghost here = sec.items@.map_values(|it: ConfItem| (it, sec.name));
            assert(secs.take(s + 1).drop_last() =~= secs.take(s as int));
            assert(flat_items(secs.take(s + 1)) == prev + here);
            let mut i: usize = 0;
            assert(prev + here.take(0) =~= prev);
            while i < sec.items.len()
                invariant
                    secs == self.sections@,
                    s < secs.len(),
                    sec == secs[s as int],
                    prev == flat_items(secs.take(s as int)),
                    here == sec.items@.map_values(|it: ConfItem| (it, sec.name)),
                    flat_items(secs.take(s + 1)) == prev + here,
                    i <= sec.items@.len(),
                    done == prev + here.take(i as int),
                    commands@.len() == done.len(),
                    forall|j: int| 0 <= j < done.len() ==> (#[trigger] done[j]).0.is_valid(),
                    forall|j: int| 0 <= j < done.len() ==> {
                        &&& (#[trigger] commands@[j]).command@ == done[j].0.command_spec()
                        &&& commands@[j].caption == done[j].0.caption_spec()
                        &&& commands@[j].section == done[j].1
                    },
                decreases sec.items@.len() - i,
            {
                let item = &sec.items[i];
                let (valid, caption) = item.validate();
                assert(here[i as int] == (*item, sec.name));
                if !valid {
                    proof {
                        let k = done.len() as int;
                        let fl = flat_items(secs);
                        lemma_flat_prefix(secs, s + 1);
                        assert((prev + here)[k] == here[i as int]);
                        assert(fl[k] == (prev + here)[k]);
                        assert forall|j: int| 0 <= j < k implies (#[trigger] fl[j]).0.is_valid() by {
                            assert(fl[j] == (prev + here)[j]);
                            assert((prev + here)[j] == done[j]);
                        }
                        assert(is_first_invalid(fl, k));
                        let c = choose|c: int| is_first_invalid(fl, c);
                        if c < k {
                            assert(fl[c].0.is_valid());
                        } else if c > k {
                            assert(fl[k].0.is_valid());
                        }
                    }
                    return WritePlan {
                        commands,
                        invalid: Some(FieldRef { caption: caption.clone(), section: sec.name.clone() }),
                    };
                }
                let cmd = WriteCommand {
                    command: item.to_device(),
                    caption: caption.clone(),
                    section: sec.name.clone(),
                };
                commands.push(cmd);
                proof {
                    assert(prev + here.take(i + 1) =~= done.push(here[i as int]));
                    done = done.push(here[i as int]);
                }
                i = i + 1;
            }
            assert(here.take(i as int) =~= here);
            s = s + 1;
        }
        proof {
            let fl = flat_items(secs);
            assert(secs.take(secs.len() as int) =~= secs);
            if exists|k: int| is_first_invalid(fl, k) {
                let k = choose|k: int| is_first_invalid(fl, k);
                assert(fl[k] == done[k]);
            }
        }
        WritePlan { commands, invalid: None }
    }
    /// Position (section, item) of the first item whose id is `id`.
    pub fn find(&self, id: &str) -> (r: Option<(usize, usize)>)
        ensures
            match r {
                Some((s, i)) => is_first_item(self.sections@, id@, s as int, i as int),
                None => !has_item(self.sections@, id@),
            },
    {
        let mut s: usize = 0;
        while s < self.sections.len()
            invariant
                s <= self.sections@.len(),
                forall|t: int, j: int|
                    0 <= t < s && 0 <= j < self.sections@[t].items@.len()
                        ==> #[trigger] self.sections@[t].items@[j].id_spec()@ != id@,
            decreases self.sections@.len() - s,
        {
            match self.sections[s].find(id) {
                Some(i) => {
                    return Some((s, i));
                },
                None => {},
            }
            s = s + 1;
        }
        None
    }

    /// Gives the wire value `v` to the first item whose id is `id`, and tells
    /// where that item stands; without such an item nothing changes.
    pub fn apply_value(&mut self, id: &str, v: &str) -> (r: Option<(usize, usize)>)
        ensures
            final(self).signature == old(self).signature,
            final(self).title == old(self).title,
            value_applied(old(self).sections@, final(self).sections@, id@, v@),
            match r {
                Some((s, i)) => is_first_item(old(self).sections@, id@, s as int, i as int),
                None => !has_item(old(self).sections@, id@),
            },
    {
        match self.find(id) {
            Some((s, i)) => {
                let ghost old_secs = self.sections@;
                let mut sec = self.sections.remove(s);
                let ghost old_items = sec.items@;
                let mut it = sec.items.remove(i);
                it.from_device(v);
                sec.items.insert(i, it);
                assert(sec.items@ =~= old_items.update(i as int, sec.items@[i as int]));
                self.sections.insert(s, sec);
                assert(self.sections@ =~= old_secs.update(s as int, self.sections@[s as int]));
                assert forall|s2: int, i2: int| is_first_item(old_secs, id@, s2, i2) implies item_replaced(old_secs, self.sections@, s2, i2, v@) by {
                    lemma_first_item_unique(old_secs, id@, s as int, i as int, s2, i2);
                }
                Some((s, i))
            },
            None => None,
        }
    }

    /// Reads the reply to the configuration query into the items: each
    /// (id, value) pair of its configuration lines, in order, goes to the first
    /// item with that id. Nothing changes where the reply did not report success.
    pub fn read_config(&mut self, ok: bool, lines: &Vec<String>)
        ensures
            final(self).signature == old(self).signature,
            final(self).title == old(self).title,
            values_applied(
                old(self).sections@,
                final(self).sections@,
                if ok {
                    config_pairs(crate::channel::views(lines@))
                } else {
                    Seq::empty()
                },
            ),
    {
        let pairs = parse_config(ok, lines);
        let ghost start = self.sections@;
        let ghost pv = pair_views(pairs@);
        let mut k: usize = 0;
        assert(pv.take(0) =~= Seq::<(Seq<char>, Seq<char>)>::empty());
        while k < pairs.len()
            invariant
                pv == pair_views(pairs@),
                k <= pairs@.len(),
                self.signature == old(self).signature,
                self.title == old(self).title,
                start == old(self).sections@,
                values_applied(start, self.sections@, pv.take(k as int)),
            decreases pairs@.len() - k,
        {
            let ghost mid = self.sections@;
            self.apply_value(pairs[k].0.as_str(), pairs[k].1.as_str());
            assert(pv.take(k + 1).drop_last() =~= pv.take(k as int));
            assert(pv.take(k + 1).last() == (pairs@[k as int].0@, pairs@[k as int].1@));
            assert(values_applied(start, mid, pv.take(k + 1).drop_last()));
            assert(value_applied(mid, self.sections@, pv.take(k + 1).last().0, pv.take(k + 1).last().1));
            assert(values_applied(start, self.sections@, pv.take(k + 1)));
            k = k + 1;
        }
        assert(pv.take(pairs@.len() as int) =~= pv);
    }
}

impl Root {
    /// Index of the known device that answered the version command with the
    /// reply (`ok`, `lines`): its signature is parsed, then looked up.
    pub fn identify(&self, ok: bool, lines: &Vec<String>) -> (r: Result<usize, DeviceError>)
        ensures
            !(ok && lines@.len() > 0 && signature_match(lines@[0]@) is Some) ==> r == Err::<usize, DeviceError>(DeviceError::ProtocolError),
            (ok && lines@.len() > 0 && signature_match(lines@[0]@) is Some) ==> (
                signature_match(lines@[0]@) matches Some((p, m, v)) && match r {
                    Ok(i) => i < self.spec@.len() && self.spec@[i as int].signature.product@ == p
                        && self.spec@[i as int].signature.model@ == m
                        && self.spec@[i as int].signature.version == version_of(v)
                        && forall|j: int| 0 <= j < i ==> !(#[trigger] self.spec@[j].signature.product@ == p
                            && self.spec@[j].signature.model@ == m
                            && self.spec@[j].signature.version == version_of(v)),
                    Err(e) => e == DeviceError::UnknownDevice && forall|j: int| 0 <= j < self.spec@.len() ==> !(#[trigger] self.spec@[j].signature.product@ == p
                            && self.spec@[j].signature.model@ == m
                            && self.spec@[j].signature.version == version_of(v)),
                }),
    {
        match parse_signature(ok, lines) {
            Ok(sig) => match self.check_signature(&sig) {
                Some(i) => Ok(i),
                None => Err(DeviceError::UnknownDevice),
            },
            Err(e) => Err(e),
        }
    }

    /// Index of the first known device whose signature is `sig`.
    pub fn check_signature(&self, sig: &Signature) -> (r: Option<usize>)
        ensures
            match r {
                Some(i) => i < self.spec@.len() && self.spec@[i as int].signature.same(sig) && forall|
                    j: int,
                | 0 <= j < i ==> !(#[trigger] self.spec@[j].signature).same(sig),
                None => forall|j: int|
                    0 <= j < self.spec@.len() ==> !(#[trigger] self.spec@[j].signature).same(sig),
            },
    {
        let mut i: usize = 0;
        while i < self.spec.len()
            invariant
                i <= self.spec@.len(),
                forall|j: int| 0 <= j < i ==> !(#[trigger] self.spec@[j].signature).same(sig),
            decreases self.spec@.len() - i,
        {
            if self.spec[i].signature == *sig {
                return Some(i);
            }
            i = i + 1;
        }
        None
    }
}

} // verus!
