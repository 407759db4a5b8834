//! The type table of a compiled object, and the device descriptors that an
//! object declares in it.
//!
//! An object names the devices it supports in a union held by a variable of
//! the data section `.hid_bpf_config`. Each member of the union is a struct
//! for one device. The struct's first member gives a prefix, its name and `_`;
//! a later member named `<prefix>bus`, `<prefix>group`, `<prefix>vid` or
//! `<prefix>pid` that is a pointer to an array gives that field, and the value
//! of the field is the number of elements that the array is declared with.

use crate::modalias::{Bus, Group, Modalias};
use crate::order::same_text;
use crate::paths::starts_with;
use crate::text::chars_of;
use vstd::prelude::*;

verus! {

/// A member of a struct or a union: its name, if it has one, and the place of
/// its type in the table.
#[derive(Debug, Clone)]
pub struct BtfMember {
    pub name: Option<String>,
    pub ty: u32,
}

/// One record of the type table. A record refers to another by its place in
/// the table.
#[derive(Debug, Clone)]
pub enum BtfType {
    /// A type that refers to no other, or one that is of no interest here.
    Scalar,
    /// A pointer to the type at `target`.
    Ptr { target: u32 },
    /// An array declared with `capacity` elements.
    Array { elem: u32, capacity: u32 },
    /// A struct with its members in the order of their declaration.
    Struct { members: Vec<BtfMember> },
    /// A union with its members in the order of their declaration.
    Union { members: Vec<BtfMember> },
    /// A typedef or a qualifier (`const`, `volatile`, `restrict`, a type tag)
    /// of the type at `target`.
    Alias { target: u32 },
    /// A variable of the type at `ty`.
    Var { name: String, ty: u32 },
    /// A data section with the places of its variables.
    DataSec { name: String, vars: Vec<u32> },
}

/// The type table of an object.
#[derive(Debug, Clone)]
pub struct Btf {
    pub types: Vec<BtfType>,
}

/// The record is the data section `.hid_bpf_config`.
pub open spec fn is_config_section(t: BtfType) -> bool {
    match t {
        BtfType::DataSec { name, .. } => name@ == ".hid_bpf_config"@,
        _ => false,
    }
}

/// The place of the first data section `.hid_bpf_config`; the length of the
/// table where there is none.
pub open spec fn config_section(types: Seq<BtfType>) -> int
    decreases types.len(),
{
    if types.len() == 0 {
        0
    } else if is_config_section(types[0]) {
        0
    } else {
        1 + config_section(types.skip(1))
    }
}

/// The place that is reached from `id` by passing over typedefs and
/// qualifiers, at most `fuel` of them; `None` where the way leaves the table or
/// does not end.
pub open spec fn resolve(types: Seq<BtfType>, id: int, fuel: nat) -> Option<int>
    decreases fuel,
{
    if !(0 <= id < types.len()) {
        None
    } else {
        match types[id] {
            BtfType::Alias { target } => if fuel == 0 {
                None
            } else {
                resolve(types, target as int, (fuel - 1) as nat)
            },
            _ => Some(id),
        }
    }
}

/// The place of the union that the variable at `id` holds, typedefs and
/// qualifiers passed over; `None` where the record is no variable or holds no
/// union.
pub open spec fn var_union(types: Seq<BtfType>, id: int) -> Option<int> {
    if !(0 <= id < types.len()) {
        None
    } else {
        match types[id] {
            BtfType::Var { ty, .. } => match resolve(types, ty as int, types.len()) {
                Some(at) => match types[at] {
                    BtfType::Union { .. } => Some(at),
                    _ => None,
                },
                None => None,
            },
            _ => None,
        }
    }
}

/// The union of the first of the variables that holds one.
pub open spec fn first_union(types: Seq<BtfType>, vars: Seq<u32>) -> Option<int>
    decreases vars.len(),
{
    if vars.len() == 0 {
        None
    } else {
        match var_union(types, vars[0] as int) {
            Some(at) => Some(at),
            None => first_union(types, vars.skip(1)),
        }
    }
}

/// The place of the union in which the object declares its devices.
pub open spec fn config_union(types: Seq<BtfType>) -> Option<int> {
    let at = config_section(types);
    if at < types.len() {
        match types[at] {
            BtfType::DataSec { vars, .. } => first_union(types, vars@),
            _ => None,
        }
    } else {
        None
    }
}

/// The number of elements of the array that the type at `id` points to;
/// `None` where it is no pointer to an array.
pub open spec fn pointed_capacity(types: Seq<BtfType>, id: int) -> Option<nat> {
    if !(0 <= id < types.len()) {
        None
    } else {
        match types[id] {
            BtfType::Ptr { target } => if target < types.len() {
                match types[target as int] {
                    BtfType::Array { capacity, .. } => Some(capacity as nat),
                    _ => None,
                }
            } else {
                None
            },
            _ => None,
        }
    }
}

/// The descriptor after one more member of the struct was read. A member
/// that is no field leaves it as it is. A bus or a group that no code names
/// makes the entry malformed: `None`.
pub open spec fn with_member(
    types: Seq<BtfType>,
    m: Modalias,
    member: BtfMember,
    prefix: Seq<char>,
) -> Option<Modalias> {
    match (member.name, pointed_capacity(types, member.ty as int)) {
        (Some(name), Some(value)) => if starts_with(name@, prefix) {
            let field = name@.skip(prefix.len() as int);
            if field == "bus"@ {
                match Bus::of_code(value) {
                    Some(bus) => Some(Modalias { bus, ..m }),
                    None => None,
                }
            } else if field == "group"@ {
                match Group::of_code(value) {
                    Some(group) => Some(Modalias { group, ..m }),
                    None => None,
                }
            } else if field == "vid"@ {
                Some(Modalias { vid: value as u32, ..m })
            } else if field == "pid"@ {
                Some(Modalias { pid: value as u32, ..m })
            } else {
                Some(m)
            }
        } else {
            Some(m)
        },
        _ => Some(m),
    }
}

/// The descriptor that the members from the second up to `upto` give, with
/// wildcards for the fields that none of them gives.
pub open spec fn with_members(
    types: Seq<BtfType>,
    members: Seq<BtfMember>,
    prefix: Seq<char>,
    upto: int,
) -> Option<Modalias>
    decreases upto,
{
    if upto <= 1 {
        Some(Modalias { bus: Bus::Any, group: Group::Any, vid: 0, pid: 0 })
    } else {
        match with_members(types, members, prefix, upto - 1) {
            Some(m) => with_member(types, m, members[upto - 1], prefix),
            None => None,
        }
    }
}

/// The descriptor that the struct at `id` declares; `None` where the record
/// is no struct or the entry is malformed.
pub open spec fn entry_modalias(types: Seq<BtfType>, id: int) -> Option<Modalias> {
    if !(0 <= id < types.len()) {
        None
    } else {
        match types[id] {
            BtfType::Struct { members } => if members@.len() == 0 {
                Some(Modalias { bus: Bus::Any, group: Group::Any, vid: 0, pid: 0 })
            } else {
                match members@[0].name {
                    Some(first) => with_members(
                        types,
                        members@,
                        first@ + seq!['_'],
                        members@.len() as int,
                    ),
                    None => None,
                }
            },
            _ => None,
        }
    }
}

/// The descriptors that the first `upto` members of a union declare, in
/// order; malformed entries are left out.
pub open spec fn entries(types: Seq<BtfType>, members: Seq<BtfMember>, upto: int) -> Seq<Modalias>
    decreases upto,
{
    if upto <= 0 {
        Seq::empty()
    } else {
        let rest = entries(types, members, upto - 1);
        match entry_modalias(types, members[upto - 1].ty as int) {
            Some(m) => rest.push(m),
            None => rest,
        }
    }
}

/// The descriptors that the union at `id` declares.
pub open spec fn union_modaliases(types: Seq<BtfType>, id: int) -> Seq<Modalias> {
    if !(0 <= id < types.len()) {
        Seq::empty()
    } else {
        match types[id] {
            BtfType::Union { members } => entries(types, members@, members@.len() as int),
            _ => Seq::empty(),
        }
    }
}

/// The descriptors that an object declares: those of its configuration union,
/// and none where it has no such union.
pub open spec fn declared_modaliases(types: Seq<BtfType>) -> Seq<Modalias> {
    match config_union(types) {
        Some(at) => union_modaliases(types, at),
        None => Seq::empty(),
    }
}

/// An object without a data section `.hid_bpf_config` declares no device.
pub proof fn lemma_no_section_no_devices(types: Seq<BtfType>)
    requires
        forall|i: int| 0 <= i < types.len() ==> !is_config_section(#[trigger] types[i]),
    ensures
        config_union(types) is None,
        declared_modaliases(types).len() == 0,
{
    lemma_config_section_absent(types);
}

/// Where no record is the section, the search for it ends behind the table.
proof fn lemma_config_section_absent(types: Seq<BtfType>)
    requires
        forall|i: int| 0 <= i < types.len() ==> !is_config_section(#[trigger] types[i]),
    ensures
        config_section(types) == types.len(),
    decreases types.len(),
{
    if types.len() > 0 {
        let rest = types.skip(1);
        assert forall|i: int| 0 <= i < rest.len() implies !is_config_section(#[trigger] rest[i]) by {
            assert(rest[i] == types[i + 1]);
        }
        lemma_config_section_absent(rest);
    }
}

/// An entry that is malformed after some of its members stays malformed.
proof fn lemma_malformed_stays(
    types: Seq<BtfType>,
    members: Seq<BtfMember>,
    prefix: Seq<char>,
    from: int,
    upto: int,
)
    requires
        1 < from <= upto,
        with_members(types, members, prefix, from) is None,
    ensures
        with_members(types, members, prefix, upto) is None,
    decreases upto - from,
{
    if from < upto {
        lemma_malformed_stays(types, members, prefix, from, upto - 1);
    }
}

/// The configuration union of an object: where an object declares the
/// devices that it supports.
#[derive(Debug)]
pub struct Metadata<'m> {
    btf: &'m Btf,
    types: usize,
}

impl Btf {
    /// Tells whether the record at `at` is the data section `.hid_bpf_config`.
    fn is_config_at(&self, at: usize) -> (r: bool)
        requires
            at < self.types.len(),
        ensures
            r == is_config_section(self.types@[at as int]),
    {
        match &self.types[at] {
            BtfType::DataSec { name, .. } => {
                let have = chars_of(name.as_str());
                let want = chars_of(".hid_bpf_config");
                same_text(&have, &want)
            },
            _ => false,
        }
    }

    /// The place reached from `id` by passing over typedefs and qualifiers.
    fn skip_mods_and_typedefs(&self, id: u32) -> (r: Option<usize>)
        ensures
            match r {
                Some(at) => resolve(self.types@, id as int, self.types@.len()) == Some(at as int)
                    && at < self.types.len(),
                None => resolve(self.types@, id as int, self.types@.len()) is None,
            },
    {
        let mut at: usize = id as usize;
        let mut fuel: usize = self.types.len();
        loop
            invariant
                fuel <= self.types.len(),
                resolve(self.types@, id as int, self.types@.len()) == resolve(
                    self.types@,
                    at as int,
                    fuel as nat,
                ),
            decreases fuel,
        {
            if at >= self.types.len() {
                return None;
            }
            match &self.types[at] {
                BtfType::Alias { target } => {
                    if fuel == 0 {
                        return None;
                    }
                    at = *target as usize;
                    fuel = fuel - 1;
                },
                _ => {
                    return Some(at);
                },
            }
        }
    }

    /// The union that the variable at `id` holds.
    fn union_of_var(&self, id: u32) -> (r: Option<usize>)
        ensures
            match r {
                Some(at) => var_union(self.types@, id as int) == Some(at as int) && at
                    < self.types.len(),
                None => var_union(self.types@, id as int) is None,
            },
    {
        if id as usize >= self.types.len() {
            return None;
        }
        match &self.types[id as usize] {
            BtfType::Var { ty, .. } => match self.skip_mods_and_typedefs(*ty) {
                Some(at) => match &self.types[at] {
                    BtfType::Union { .. } => Some(at),
                    _ => None,
                },
                None => None,
            },
            _ => None,
        }
    }

    /// The number of elements of the array that the type at `id` points to.
    fn capacity_behind(&self, id: u32) -> (r: Option<u32>)
        ensures
            match r {
                Some(n) => pointed_capacity(self.types@, id as int) == Some(n as nat),
                None => pointed_capacity(self.types@, id as int) is None,
            },
    {
        if id as usize >= self.types.len() {
            return None;
        }
        match &self.types[id as usize] {
            BtfType::Ptr { target } => {
                if *target as usize >= self.types.len() {
                    return None;
                }
                match &self.types[*target as usize] {
                    BtfType::Array { capacity, .. } => Some(*capacity),
                    _ => None,
                }
            },
            _ => None,
        }
    }

    /// The descriptors that the object declares: those of the union in its
    /// data section `.hid_bpf_config`, and none where it has no such union.
    pub fn modaliases(&self) -> (r: Vec<Modalias>)
        ensures
            r@ == declared_modaliases(self.types@),
    {
        match Metadata::from_btf(self) {
            Some(metadata) => metadata.modaliases(),
            None => Vec::new(),
        }
    }
}

/// Tells whether the characters from `from` on are those of `word`.
fn rest_is(name: &Vec<char>, from: usize, word: &str) -> (r: bool)
    requires
        from <= name.len(),
    ensures
        r == (name@.skip(from as int) == word@),
{
    let want = chars_of(word);
    if name.len() - from != want.len() {
        return false;
    }
    let mut k: usize = 0;
    while k < want.len()
        invariant
            from <= name.len(),
            name.len() - from == want.len(),
            want@ == word@,
            k <= want.len(),
            forall|j: int| 0 <= j < k ==> name@[from + j] == want@[j],
        decreases want.len() - k,
    {
        if name[from + k] != want[k] {
            proof {
                assert(name@.skip(from as int)[k as int] == name@[from + k]);
            }
            return false;
        }
        k = k + 1;
    }
    proof {
        assert(name@.skip(from as int) =~= want@);
    }
    true
}

/// Tells whether `name` starts with `prefix`.
fn begins_with(name: &Vec<char>, prefix: &Vec<char>) -> (r: bool)
    ensures
        r == starts_with(name@, prefix@),
{
    if name.len() < prefix.len() {
        return false;
    }
    let mut k: usize = 0;
    while k < prefix.len()
        invariant
            k <= prefix.len() <= name.len(),
            forall|j: int| 0 <= j < k ==> name@[j] == prefix@[j],
        decreases prefix.len() - k,
    {
        if name[k] != prefix[k] {
            proof {
                assert(name@.take(prefix.len() as int)[k as int] == name@[k as int]);
            }
            return false;
        }
        k = k + 1;
    }
    proof {
        assert(name@.take(prefix.len() as int) =~= prefix@);
    }
    true
}

impl<'m> Metadata<'m> {
    /// The place is that of the configuration union of the table.
    #[verifier::type_invariant]
    spec fn names_the_union(&self) -> bool {
        config_union(self.btf.types@) == Some(self.types as int)
    }

    /// The table that the union is part of.
    pub closed spec fn table(&self) -> Seq<BtfType> {
        self.btf.types@
    }

    /// The place of the union in the table.
    pub closed spec fn union_place(&self) -> int {
        self.types as int
    }

    /// Finds the union in which the object declares its devices: in the data
    /// section `.hid_bpf_config`, the first variable whose type is a union,
    /// typedefs and qualifiers passed over. An object without it declares
    /// nothing, which is no fault.
    pub fn from_btf(btf: &'m Btf) -> (r: Option<Metadata<'m>>)
        ensures
            match r {
                Some(metadata) => config_union(btf.types@) == Some(metadata.union_place())
                    && metadata.table() == btf.types@,
                None => config_union(btf.types@) is None,
            },
    {
        let mut at: usize = 0;
        proof {
            assert(btf.types@.skip(0) =~= btf.types@);
        }
        while at < btf.types.len() && !btf.is_config_at(at)
            invariant
                at <= btf.types.len(),
                config_section(btf.types@) == at + config_section(btf.types@.skip(at as int)),
            decreases btf.types.len() - at,
        {
            proof {
                let rest = btf.types@.skip(at as int);
                assert(rest[0] == btf.types@[at as int]);
                assert(rest.skip(1) =~= btf.types@.skip(at + 1));
            }
            at = at + 1;
        }
        if at >= btf.types.len() {
            return None;
        }
        proof {
            let rest = btf.types@.skip(at as int);
            assert(rest[0] == btf.types@[at as int]);
        }
        match &btf.types[at] {
            BtfType::DataSec { vars, .. } => {
                let mut k: usize = 0;
                proof {
                    assert(vars@.skip(0) =~= vars@);
                }
                while k < vars.len()
                    invariant
                        k <= vars.len(),
                        config_union(btf.types@) == first_union(btf.types@, vars@.skip(k as int)),
                    decreases vars.len() - k,
                {
                    proof {
                        let rest = vars@.skip(k as int);
                        assert(rest[0] == vars@[k as int]);
                        assert(rest.skip(1) =~= vars@.skip(k + 1));
                    }
                    match btf.union_of_var(vars[k]) {
                        Some(found) => {
                            return Some(Metadata { btf, types: found });
                        },
                        None => {},
                    }
                    k = k + 1;
                }
                None
            },
            _ => None,
        }
    }

    /// The descriptor that one member of the union declares: the struct at
    /// `id` is read member by member. `None` for an entry that is malformed.
    pub fn from_btf_type_id(btf: &Btf, id: u32) -> (r: Option<Modalias>)
        ensures
            r == entry_modalias(btf.types@, id as int),
    {
        if id as usize >= btf.types.len() {
            return None;
        }
        match &btf.types[id as usize] {
            BtfType::Struct { members } => {
                let mut modalias = Modalias::new();
                if members.len() == 0 {
                    return Some(modalias);
                }
                let mut prefix = match &members[0].name {
                    Some(first) => chars_of(first.as_str()),
                    None => return None,
                };
                prefix.push('_');
                let ghost first = members@[0].name->0@;
                proof {
                    assert(prefix@ =~= first + seq!['_']);
                }
                let mut k: usize = 1;
                while k < members.len()
                    invariant
                        1 <= k <= members.len(),
                        with_members(btf.types@, members@, prefix@, k as int) == Some(modalias),
                        entry_modalias(btf.types@, id as int) == with_members(
                            btf.types@,
                            members@,
                            prefix@,
                            members@.len() as int,
                        ),
                    decreases members.len() - k,
                {
                    let member = &members[k];
                    match (&member.name, btf.capacity_behind(member.ty)) {
                        (Some(name), Some(value)) => {
                            let name = chars_of(name.as_str());
                            if begins_with(&name, &prefix) {
                                let from = prefix.len();
                                if rest_is(&name, from, "bus") {
                                    match Bus::try_from(value as usize) {
                                        Ok(bus) => {
                                            modalias.bus = bus;
                                        },
                                        Err(_) => {
                                            proof {
                                                lemma_malformed_stays(
                                                    btf.types@,
                                                    members@,
                                                    prefix@,
                                                    k + 1,
                                                    members@.len() as int,
                                                );
                                            }
                                            return None;
                                        },
                                    }
                                } else if rest_is(&name, from, "group") {
                                    match Group::try_from(value as usize) {
                                        Ok(group) => {
                                            modalias.group = group;
                                        },
                                        Err(_) => {
                                            proof {
                                                lemma_malformed_stays(
                                                    btf.types@,
                                                    members@,
                                                    prefix@,
                                                    k + 1,
                                                    members@.len() as int,
                                                );
                                            }
                                            return None;
                                        },
                                    }
                                } else if rest_is(&name, from, "vid") {
                                    modalias.vid = value;
                                } else if rest_is(&name, from, "pid") {
                                    modalias.pid = value;
                                }
                            }
                        },
                        _ => {},
                    }
                    k = k + 1;
                }
                Some(modalias)
            },
            _ => None,
        }
    }

    /// The descriptors that the union declares, one for each member that is
    /// well formed, in the order of the members.
    pub fn modaliases(&self) -> (r: Vec<Modalias>)
        ensures
            r@ == union_modaliases(self.table(), self.union_place()),
            r@ == declared_modaliases(self.table()),
    {
        proof {
            use_type_invariant(self);
        }
        let mut out: Vec<Modalias> = Vec::new();
        if self.types >= self.btf.types.len() {
            return out;
        }
        match &self.btf.types[self.types] {
            BtfType::Union { members } => {
                let mut k: usize = 0;
                while k < members.len()
                    invariant
                        k <= members.len(),
                        out@ == entries(self.btf.types@, members@, k as int),
                    decreases members.len() - k,
                {
                    match Self::from_btf_type_id(self.btf, members[k].ty) {
                        Some(m) => {
                            out.push(m);
                        },
                        None => {},
                    }
                    k = k + 1;
                }
                out
            },
            _ => out,
        }
    }
}

} // verus!
