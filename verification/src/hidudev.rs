//! A HID device as udev reports it: its name, its properties and the object
//! files that its properties ask for.

use crate::hex::{parse_hex, read_hex};
use crate::modalias::{parse_spec, Modalias, ModaliasError};
use crate::order::same_text;
use crate::paths::starts_with;
use crate::text::{
    char_is_whitespace, chars_of, find_char, is_whitespace, position_of, string_of, substring,
    views,
};
use vstd::prelude::*;
use vstd::std_specs::convert::{FromSpecImpl, TryFromSpecImpl};

verus! {

/// One property of a device: a name and its value.
#[derive(Debug, Clone)]
pub struct HidUdevProperty {
    pub name: String,
    pub value: String,
}

/// A text that is no `NAME=VALUE` pair.
#[derive(Debug, Clone, Copy, PartialEq, Eq, Structural)]
pub struct InvalidProperty;

/// What a text means as a property: the name is what stands before the first
/// `=`, the value what stands behind it. A text without `=`, or with white
/// space in the name, means none.
pub open spec fn property_spec(s: Seq<char>) -> Option<(Seq<char>, Seq<char>)> {
    let at = position_of(s, '=');
    if at >= s.len() {
        None
    } else if exists|k: int| 0 <= k < at && is_whitespace(#[trigger] s[k]) {
        None
    } else {
        Some((s.take(at), s.skip(at + 1)))
    }
}

impl HidUdevProperty {
    /// Reads a `NAME=VALUE` pair.
    pub fn parse(s: &str) -> (r: Result<HidUdevProperty, InvalidProperty>)
        ensures
            match r {
                Ok(p) => property_spec(s@) == Some((p.name@, p.value@)),
                Err(_) => property_spec(s@) is None,
            },
    {
        let chars = chars_of(s);
        let at = find_char(&chars, '=');
        if at >= chars.len() {
            return Err(InvalidProperty);
        }
        let mut k: usize = 0;
        while k < at
            invariant
                k <= at < chars.len(),
                chars@ == s@,
                at == position_of(s@, '='),
                forall|j: int| 0 <= j < k ==> !is_whitespace(#[trigger] chars@[j]),
            decreases at - k,
        {
            if char_is_whitespace(chars[k]) {
                proof {
                    assert(is_whitespace(s@[k as int]));
                }
                return Err(InvalidProperty);
            }
            k = k + 1;
        }
        let name = substring(&chars, 0, at);
        let value = substring(&chars, at + 1, chars.len());
        proof {
            assert(name@ =~= s@.take(at as int));
            assert(value@ =~= s@.skip(at + 1));
        }
        Ok(HidUdevProperty { name, value })
    }

    /// The name and the value as texts.
    pub open spec fn pair(self) -> (Seq<char>, Seq<char>) {
        (self.name@, self.value@)
    }

    /// A property with the same name and value.
    pub fn copy(&self) -> (r: HidUdevProperty)
        ensures
            r.pair() == self.pair(),
    {
        HidUdevProperty { name: self.name.clone(), value: self.value.clone() }
    }
}

impl From<&HidUdevProperty> for HidUdevProperty {
    fn from(p: &HidUdevProperty) -> (r: HidUdevProperty)
        ensures
            r.pair() == p.pair(),
    {
        p.copy()
    }
}

/// The copy is described by its texts, in the `ensures` of `from`.
impl FromSpecImpl<&HidUdevProperty> for HidUdevProperty {
    open spec fn obeys_from_spec() -> bool {
        false
    }

    open spec fn from_spec(p: &HidUdevProperty) -> HidUdevProperty {
        *p
    }
}

impl TryFrom<&str> for HidUdevProperty {
    type Error = InvalidProperty;

    fn try_from(s: &str) -> (r: Result<HidUdevProperty, InvalidProperty>)
        ensures
            match r {
                Ok(p) => property_spec(s@) == Some(p.pair()),
                Err(_) => property_spec(s@) is None,
            },
    {
        HidUdevProperty::parse(s)
    }
}

/// What is read is described by its texts, in the `ensures` of `try_from`.
impl TryFromSpecImpl<&str> for HidUdevProperty {
    open spec fn obeys_try_from_spec() -> bool {
        false
    }

    open spec fn try_from_spec(s: &str) -> Result<HidUdevProperty, InvalidProperty> {
        Err(InvalidProperty)
    }
}

/// The names and values of a list of properties.
pub open spec fn pairs(props: Seq<HidUdevProperty>) -> Seq<(Seq<char>, Seq<char>)> {
    props.map_values(|p: HidUdevProperty| p.pair())
}

/// A device as udev reports it, with what this library reads of it.
#[derive(Debug, Clone)]
pub struct UdevNode {
    pub syspath: String,
    pub sysname: String,
    pub subsystem: Option<String>,
    pub properties: Vec<HidUdevProperty>,
}

/// Why a path leads to no HID device.
#[derive(Debug, Clone, Copy, PartialEq, Eq, Structural)]
pub enum ResolveError {
    /// Neither the device nor one of its ancestors is on the `hid` subsystem.
    NotAHidDevice,
    /// The name of the HID device does not end in its number.
    MalformedSysname,
}

/// The node is on the `hid` subsystem.
pub open spec fn is_hid(node: UdevNode) -> bool {
    match node.subsystem {
        Some(s) => s@ == "hid"@,
        None => false,
    }
}

/// The place of the first node on the `hid` subsystem; the length of the chain
/// where there is none.
pub open spec fn hid_position(chain: Seq<UdevNode>) -> int
    decreases chain.len(),
{
    if chain.len() == 0 {
        0
    } else if is_hid(chain[0]) {
        0
    } else {
        1 + hid_position(chain.skip(1))
    }
}

/// The number of a device: what its name `bus:vendor:product.number` holds
/// behind the first fifteen characters, read as at most eight hexadecimal digits.
pub open spec fn device_id(sysname: Seq<char>) -> Option<nat> {
    if 15 < sysname.len() <= 23 {
        parse_hex(sysname.skip(15))
    } else {
        None
    }
}

/// The values of the properties that name object files: those whose name
/// starts with `HID_BPF_`, in the order of the properties.
pub open spec fn hints(props: Seq<(Seq<char>, Seq<char>)>) -> Seq<Seq<char>>
    decreases props.len(),
{
    if props.len() == 0 {
        Seq::empty()
    } else {
        let rest = hints(props.drop_last());
        if starts_with(props.last().0, "HID_BPF_"@) {
            rest.push(props.last().1)
        } else {
            rest
        }
    }
}

/// The value of the first property with the given name.
pub open spec fn property_value(props: Seq<(Seq<char>, Seq<char>)>, name: Seq<char>) -> Option<
    Seq<char>,
>
    decreases props.len(),
{
    if props.len() == 0 {
        None
    } else if props[0].0 == name {
        Some(props[0].1)
    } else {
        property_value(props.skip(1), name)
    }
}

/// The text from which the descriptor of a device is read: its property
/// `MODALIAS`, and `hid:empty` where it has none.
pub open spec fn modalias_text(props: Seq<(Seq<char>, Seq<char>)>) -> Seq<char> {
    match property_value(props, "MODALIAS"@) {
        Some(value) => value,
        None => "hid:empty"@,
    }
}

/// One of the properties has the name.
pub open spec fn has_name(props: Seq<(Seq<char>, Seq<char>)>, name: Seq<char>) -> bool {
    exists|i: int| 0 <= i < props.len() && (#[trigger] props[i]).0 == name
}

/// The properties whose name none of the overriding properties has, in order.
pub open spec fn not_overridden(
    props: Seq<(Seq<char>, Seq<char>)>,
    overrides: Seq<(Seq<char>, Seq<char>)>,
) -> Seq<(Seq<char>, Seq<char>)>
    decreases props.len(),
{
    if props.len() == 0 {
        Seq::empty()
    } else {
        let rest = not_overridden(props.drop_last(), overrides);
        if has_name(overrides, props.last().0) {
            rest
        } else {
            rest.push(props.last())
        }
    }
}

/// The properties of a device with others given beside them: the given ones
/// first, then those of the device that no given one replaces.
pub open spec fn merged(
    overrides: Seq<(Seq<char>, Seq<char>)>,
    props: Seq<(Seq<char>, Seq<char>)>,
) -> Seq<(Seq<char>, Seq<char>)> {
    overrides + not_overridden(props, overrides)
}

/// The value of a property among `a + b` is its value in `a`, and its value
/// in `b` where `a` has none.
pub proof fn lemma_property_value_concat(
    a: Seq<(Seq<char>, Seq<char>)>,
    b: Seq<(Seq<char>, Seq<char>)>,
    name: Seq<char>,
)
    ensures
        property_value(a + b, name) == match property_value(a, name) {
            Some(v) => Some(v),
            None => property_value(b, name),
        },
    decreases a.len(),
{
    if a.len() == 0 {
        assert(a + b =~= b);
    } else {
        assert((a + b)[0] == a[0]);
        assert((a + b).skip(1) =~= a.skip(1) + b);
        lemma_property_value_concat(a.skip(1), b, name);
    }
}

/// A list has a value for a name exactly when it has a property of that name.
pub proof fn lemma_property_value_some(props: Seq<(Seq<char>, Seq<char>)>, name: Seq<char>)
    ensures
        property_value(props, name) is Some <==> has_name(props, name),
    decreases props.len(),
{
    if props.len() > 0 {
        let rest = props.skip(1);
        lemma_property_value_some(rest, name);
        if props[0].0 == name {
            assert(has_name(props, name));
        } else {
            if has_name(rest, name) {
                let i = choose|i: int| 0 <= i < rest.len() && (#[trigger] rest[i]).0 == name;
                assert(props[i + 1] == rest[i]);
            }
            if has_name(props, name) {
                let i = choose|i: int| 0 <= i < props.len() && (#[trigger] props[i]).0 == name;
                assert(rest[i - 1] == props[i]);
            }
        }
    }
}

/// Leaving out the replaced properties changes no value of a name that is not
/// replaced.
pub proof fn lemma_not_overridden_value(
    props: Seq<(Seq<char>, Seq<char>)>,
    overrides: Seq<(Seq<char>, Seq<char>)>,
    name: Seq<char>,
)
    requires
        !has_name(overrides, name),
    ensures
        property_value(not_overridden(props, overrides), name) == property_value(props, name),
    decreases props.len(),
{
    if props.len() > 0 {
        let front = props.drop_last();
        let last = props.last();
        lemma_not_overridden_value(front, overrides, name);
        assert(props =~= front + seq![last]);
        lemma_property_value_concat(front, seq![last], name);
        assert(seq![last].skip(1) =~= Seq::<(Seq<char>, Seq<char>)>::empty());
        assert(seq![last][0] == last);
        assert(property_value(Seq::<(Seq<char>, Seq<char>)>::empty(), name) is None);
        assert(property_value(seq![last], name) == (if last.0 == name {
            Some(last.1)
        } else {
            None
        }));
        if !has_name(overrides, last.0) {
            let kept = not_overridden(front, overrides);
            assert(not_overridden(props, overrides) =~= kept + seq![last]);
            lemma_property_value_concat(kept, seq![last], name);
        } else {
            assert(last.0 != name);
        }
    }
}

/// A property that is given beside those of the device takes precedence: the
/// value of a name is the given one, and that of the device where none is given.
pub proof fn lemma_override_wins(
    overrides: Seq<(Seq<char>, Seq<char>)>,
    props: Seq<(Seq<char>, Seq<char>)>,
    name: Seq<char>,
)
    ensures
        property_value(merged(overrides, props), name) == match property_value(overrides, name) {
            Some(v) => Some(v),
            None => property_value(props, name),
        },
{
    lemma_property_value_concat(overrides, not_overridden(props, overrides), name);
    lemma_property_value_some(overrides, name);
    if !has_name(overrides, name) {
        lemma_not_overridden_value(props, overrides, name);
    }
}

/// What a HID device is to the contracts of this library.
pub struct DeviceView {
    pub sysname: Seq<char>,
    pub syspath: Seq<char>,
    pub id: nat,
    pub properties: Seq<(Seq<char>, Seq<char>)>,
}

/// A HID device: its name and path in sysfs, its number, and its properties in
/// the order in which udev lists them.
#[derive(Debug)]
pub struct HidUdev {
    sysname: String,
    syspath: String,
    id: u32,
    properties: Vec<HidUdevProperty>,
}

impl View for HidUdev {
    type V = DeviceView;

    closed spec fn view(&self) -> DeviceView {
        DeviceView {
            sysname: self.sysname@,
            syspath: self.syspath@,
            id: self.id as nat,
            properties: pairs(self.properties@),
        }
    }
}

/// The value of the first property with the given name.
fn lookup(props: &Vec<HidUdevProperty>, name: &str) -> (r: Option<usize>)
    ensures
        match r {
            Some(i) => i < props.len() && property_value(pairs(props@), name@) == Some(
                props@[i as int].value@,
            ),
            None => property_value(pairs(props@), name@) is None,
        },
{
    let wanted = chars_of(name);
    let ghost all = pairs(props@);
    let mut i: usize = 0;
    proof {
        assert(all.skip(0) =~= all);
    }
    while i < props.len()
        invariant
            i <= props.len(),
            all == pairs(props@),
            wanted@ == name@,
            property_value(all, name@) == property_value(all.skip(i as int), name@),
        decreases props.len() - i,
    {
        let have = chars_of(props[i].name.as_str());
        proof {
            let rest = all.skip(i as int);
            assert(rest[0] == all[i as int]);
            assert(rest.skip(1) =~= all.skip(i + 1));
        }
        if same_text(&have, &wanted) {
            return Some(i);
        }
        i = i + 1;
    }
    None
}

/// Tells whether one of the properties has the name.
fn names(props: &[HidUdevProperty], name: &str) -> (r: bool)
    ensures
        r == has_name(pairs(props@), name@),
{
    let wanted = chars_of(name);
    let mut i: usize = 0;
    while i < props.len()
        invariant
            i <= props.len(),
            wanted@ == name@,
            forall|k: int| 0 <= k < i ==> (#[trigger] pairs(props@)[k]).0 != name@,
        decreases props.len() - i,
    {
        let have = chars_of(props[i].name.as_str());
        if same_text(&have, &wanted) {
            proof {
                assert(pairs(props@)[i as int].0 == name@);
            }
            return true;
        }
        i = i + 1;
    }
    false
}

/// Tells whether the characters start with the given text.
fn has_prefix(chars: &Vec<char>, prefix: &str) -> (r: bool)
    ensures
        r == starts_with(chars@, prefix@),
{
    let want = chars_of(prefix);
    if chars.len() < want.len() {
        return false;
    }
    let mut k: usize = 0;
    while k < want.len()
        invariant
            k <= want.len() <= chars.len(),
            want@ == prefix@,
            forall|j: int| 0 <= j < k ==> chars@[j] == want@[j],
        decreases want.len() - k,
    {
        if chars[k] != want[k] {
            proof {
                assert(chars@.take(want.len() as int)[k as int] == chars@[k as int]);
            }
            return false;
        }
        k = k + 1;
    }
    proof {
        assert(chars@.take(want.len() as int) =~= want@);
    }
    true
}

/// Tells whether the node is on the `hid` subsystem.
fn node_is_hid(node: &UdevNode) -> (r: bool)
    ensures
        r == is_hid(*node),
{
    match &node.subsystem {
        Some(s) => {
            let have = chars_of(s.as_str());
            let hid = chars_of("hid");
            same_text(&have, &hid)
        },
        None => false,
    }
}

/// Copies a list of properties.
fn copy_properties(props: &Vec<HidUdevProperty>) -> (r: Vec<HidUdevProperty>)
    ensures
        pairs(r@) == pairs(props@),
{
    let mut out: Vec<HidUdevProperty> = Vec::new();
    let mut i: usize = 0;
    while i < props.len()
        invariant
            i <= props.len(),
            out.len() == i,
            forall|k: int| 0 <= k < i ==> (#[trigger] out@[k]).pair() == props@[k].pair(),
        decreases props.len() - i,
    {
        out.push(props[i].copy());
        i = i + 1;
    }
    proof {
        assert(pairs(out@) =~= pairs(props@));
    }
    out
}

impl HidUdev {
    /// The number is the one that the name ends in.
    #[verifier::type_invariant]
    spec fn has_its_number(&self) -> bool {
        device_id(self.sysname@) == Some(self.id as nat)
    }

    /// Resolves a device to the HID device that it is or belongs to. `chain`
    /// holds the device that was asked for and then its ancestors, the nearest
    /// first. The HID device is the first of them on the `hid` subsystem.
    pub fn from_syspath(chain: &Vec<UdevNode>) -> (r: Result<HidUdev, ResolveError>)
        ensures
            match r {
                Ok(dev) => {
                    let at = hid_position(chain@);
                    &&& at < chain.len()
                    &&& dev@.sysname == chain@[at].sysname@
                    &&& dev@.syspath == chain@[at].syspath@
                    &&& dev@.properties == pairs(chain@[at].properties@)
                    &&& device_id(dev@.sysname) == Some(dev@.id)
                },
                Err(ResolveError::NotAHidDevice) => hid_position(chain@) == chain.len(),
                Err(ResolveError::MalformedSysname) => hid_position(chain@) < chain.len()
                    && device_id(chain@[hid_position(chain@)].sysname@) is None,
            },
    {
        let mut at: usize = 0;
        proof {
            assert(chain@.skip(0) =~= chain@);
        }
        while at < chain.len() && !node_is_hid(&chain[at])
            invariant
                at <= chain.len(),
                hid_position(chain@) == at + hid_position(chain@.skip(at as int)),
            decreases chain.len() - at,
        {
            proof {
                let rest = chain@.skip(at as int);
                assert(rest[0] == chain@[at as int]);
                assert(rest.skip(1) =~= chain@.skip(at + 1));
            }
            at = at + 1;
        }
        if at >= chain.len() {
            return Err(ResolveError::NotAHidDevice);
        }
        proof {
            let rest = chain@.skip(at as int);
            assert(rest[0] == chain@[at as int]);
        }
        let node = &chain[at];
        let name = chars_of(node.sysname.as_str());
        if name.len() <= 15 || name.len() > 23 {
            return Err(ResolveError::MalformedSysname);
        }
        proof {
            assert(name@.subrange(15, name.len() as int) =~= name@.skip(15));
        }
        let id = match read_hex(&name, 15, name.len()) {
            Some(id) => id,
            None => return Err(ResolveError::MalformedSysname),
        };
        let properties = copy_properties(&node.properties);
        Ok(
            HidUdev {
                sysname: node.sysname.clone(),
                syspath: node.syspath.clone(),
                id,
                properties,
            },
        )
    }

    /// The descriptor of the device, read from its property `MODALIAS`.
    pub fn modalias(&self) -> (r: Result<Modalias, ModaliasError>)
        ensures
            r == parse_spec(modalias_text(self@.properties)),
    {
        match lookup(&self.properties, "MODALIAS") {
            Some(i) => Modalias::from_str(self.properties[i].value.as_str()),
            None => Modalias::from_str("hid:empty"),
        }
    }

    /// The name of the device in sysfs.
    pub fn sysname(&self) -> (r: String)
        ensures
            r@ == self@.sysname,
    {
        self.sysname.clone()
    }

    /// The path of the device in sysfs.
    pub fn syspath(&self) -> (r: String)
        ensures
            r@ == self@.syspath,
    {
        self.syspath.clone()
    }

    /// The file in sysfs that holds the report descriptor of the device.
    pub fn report_descriptor_path(&self) -> (r: String)
        ensures
            r@ == self@.syspath + "/report_descriptor"@,
    {
        let mut out = chars_of(self.syspath.as_str());
        let tail = chars_of("/report_descriptor");
        let ghost head = out@;
        let mut i: usize = 0;
        while i < tail.len()
            invariant
                i <= tail.len(),
                out@ == head + tail@.take(i as int),
            decreases tail.len() - i,
        {
            out.push(tail[i]);
            i = i + 1;
            proof {
                assert(out@ =~= head + tail@.take(i as int));
            }
        }
        proof {
            assert(tail@.take(tail.len() as int) =~= tail@);
        }
        string_of(&out)
    }

    /// The number of the device: the last field of its name.
    pub fn id(&self) -> (r: u32)
        ensures
            r == self@.id,
            device_id(self@.sysname) == Some(r as nat),
    {
        proof {
            use_type_invariant(self);
        }
        self.id
    }

    /// The object files that the properties of the device ask for: the values
    /// of the properties whose name starts with `HID_BPF_`.
    pub fn hid_bpf_properties(&self) -> (r: Vec<String>)
        ensures
            views(r@) == hints(self@.properties),
    {
        let ghost all = pairs(self.properties@);
        let mut out: Vec<String> = Vec::new();
        let mut i: usize = 0;
        while i < self.properties.len()
            invariant
                i <= self.properties.len(),
                all == pairs(self.properties@),
                views(out@) == hints(all.take(i as int)),
            decreases self.properties.len() - i,
        {
            let name = chars_of(self.properties[i].name.as_str());
            proof {
                let upto = all.take(i + 1);
                assert(upto.drop_last() =~= all.take(i as int));
                assert(upto.last() == all[i as int]);
            }
            if has_prefix(&name, "HID_BPF_") {
                out.push(self.properties[i].value.clone());
                proof {
                    assert(views(out@) =~= hints(all.take(i as int)).push(all[i as int].1));
                }
            }
            i = i + 1;
        }
        proof {
            assert(all.take(self.properties.len() as int) =~= all);
        }
        out
    }

    /// All properties of the device, in the order of udev.
    pub fn udev_properties(&self) -> (r: Vec<HidUdevProperty>)
        ensures
            pairs(r@) == self@.properties,
    {
        copy_properties(&self.properties)
    }

    /// The device with the given properties beside its own. A given property
    /// takes precedence over a property of the device with the same name.
    pub fn with_overrides(self, overrides: &[HidUdevProperty]) -> (r: HidUdev)
        ensures
            r@ == (DeviceView { properties: merged(pairs(overrides@), self@.properties), ..self@ }),
    {
        proof {
            use_type_invariant(&self);
        }
        let ghost given = pairs(overrides@);
        let ghost own = pairs(self.properties@);
        let mut properties: Vec<HidUdevProperty> = Vec::new();
        let mut i: usize = 0;
        while i < overrides.len()
            invariant
                i <= overrides.len(),
                given == pairs(overrides@),
                pairs(properties@) == given.take(i as int),
            decreases overrides.len() - i,
        {
            let ghost before = pairs(properties@);
            properties.push(overrides[i].copy());
            i = i + 1;
            proof {
                assert(pairs(properties@) =~= before.push(given[i - 1]));
                assert(pairs(properties@) =~= given.take(i as int));
            }
        }
        proof {
            assert(given.take(overrides.len() as int) =~= given);
        }
        let mut k: usize = 0;
        while k < self.properties.len()
            invariant
                k <= self.properties.len(),
                given == pairs(overrides@),
                own == pairs(self.properties@),
                pairs(properties@) == given + not_overridden(own.take(k as int), given),
            decreases self.properties.len() - k,
        {
            let ghost before = pairs(properties@);
            proof {
                let upto = own.take(k + 1);
                assert(upto.drop_last() =~= own.take(k as int));
                assert(upto.last() == own[k as int]);
            }
            if !names(overrides, self.properties[k].name.as_str()) {
                properties.push(self.properties[k].copy());
                proof {
                    assert(pairs(properties@) =~= before.push(own[k as int]));
                    assert(pairs(properties@) =~= given + not_overridden(own.take(k + 1), given));
                }
            }
            k = k + 1;
        }
        proof {
            assert(own.take(self.properties.len() as int) =~= own);
        }
        HidUdev { sysname: self.sysname, syspath: self.syspath, id: self.id, properties }
    }

    /// Tells whether the device is to be left alone: whether it has the
    /// property `HID_BPF_IGNORE_DEVICE`, whatever its value.
    pub fn is_ignored(&self) -> (r: bool)
        ensures
            r == property_value(self@.properties, "HID_BPF_IGNORE_DEVICE"@).is_some(),
    {
        lookup(&self.properties, "HID_BPF_IGNORE_DEVICE").is_some()
    }
}

} // verus!
