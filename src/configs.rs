//! Configuration values of the devices this library ships with.
use vstd::prelude::*;
use crate::schema::{
    fields_of, fits, lemma_record_round_trip, read, read_record, record_bytes, write_record,
    FieldKind, FieldValue,
};
use crate::value::ConfigValue;

verus! {

/// Encabulator settings, first schema: tag 0 is the polarity.
#[derive(Clone, Copy, Debug, PartialEq, Eq, Structural)]
pub struct EncabulatorConfigV1 {
    pub polarity: bool,
}

/// Encabulator settings, current schema: tag 0 is the polarity, tag 1 the
/// optional spin rate, added after the first schema.
#[derive(Clone, Copy, Debug, PartialEq, Eq, Structural)]
pub struct EncabulatorConfig {
    pub polarity: bool,
    pub spinrate: Option<u32>,
}

/// Positron settings: tags 0, 1 and 2 are `up`, `down` and `strange`.
#[derive(Clone, Copy, Debug, PartialEq, Eq, Structural)]
pub struct PositronConfig {
    pub up: u8,
    pub down: u16,
    pub strange: u32,
}

pub open spec fn encabulator_kinds() -> Seq<FieldKind> {
    seq![FieldKind::Flag, FieldKind::OptUint]
}

pub open spec fn positron_kinds() -> Seq<FieldKind> {
    seq![
        FieldKind::Uint { max: 0xff },
        FieldKind::Uint { max: 0xffff },
        FieldKind::Uint { max: 0xffff_ffff },
    ]
}

/// The fields of an encabulator value, by tag; an absent spin rate is not
/// written.
pub open spec fn encabulator_fields(v: EncabulatorConfig) -> Seq<FieldValue> {
    match v.spinrate {
        Some(n) => seq![FieldValue::Flag(v.polarity), FieldValue::Uint(n)],
        None => seq![FieldValue::Flag(v.polarity)],
    }
}

/// The encabulator value that read fields give: the polarity is required, a
/// missing or null spin rate is `None`.
pub open spec fn encabulator_from(f: Seq<Option<FieldValue>>) -> Option<EncabulatorConfig> {
    if f.len() >= 2 {
        match f[0] {
            Some(FieldValue::Flag(p)) => match f[1] {
                Some(FieldValue::Uint(n)) => Some(
                    EncabulatorConfig { polarity: p, spinrate: Some(n) },
                ),
                Some(FieldValue::Flag(_)) => None,
                _ => Some(EncabulatorConfig { polarity: p, spinrate: None }),
            },
            _ => None,
        }
    } else {
        None
    }
}

pub open spec fn positron_fields(v: PositronConfig) -> Seq<FieldValue> {
    seq![
        FieldValue::Uint(v.up as u32),
        FieldValue::Uint(v.down as u32),
        FieldValue::Uint(v.strange),
    ]
}

/// The positron value that read fields give: all three are required.
pub open spec fn positron_from(f: Seq<Option<FieldValue>>) -> Option<PositronConfig> {
    if f.len() >= 3 {
        match (f[0], f[1], f[2]) {
            (
                Some(FieldValue::Uint(a)),
                Some(FieldValue::Uint(b)),
                Some(FieldValue::Uint(c)),
            ) => if a <= 0xff && b <= 0xffff {
                Some(PositronConfig { up: a as u8, down: b as u16, strange: c })
            } else {
                None
            },
            _ => None,
        }
    } else {
        None
    }
}

fn encabulator_kind_list() -> (r: Vec<FieldKind>)
    ensures
        r@ == encabulator_kinds(),
{
    let mut r = Vec::new();
    r.push(FieldKind::Flag);
    r.push(FieldKind::OptUint);
    r
}

fn positron_kind_list() -> (r: Vec<FieldKind>)
    ensures
        r@ == positron_kinds(),
{
    let mut r = Vec::new();
    r.push(FieldKind::Uint { max: 0xff });
    r.push(FieldKind::Uint { max: 0xffff });
    r.push(FieldKind::Uint { max: 0xffff_ffff });
    r
}

impl EncabulatorConfigV1 {
    /// The stored form of a first-schema value.
    pub open spec fn encoding(v: EncabulatorConfigV1) -> Seq<u8> {
        record_bytes(seq![FieldValue::Flag(v.polarity)])
    }

    pub fn encode(&self) -> (r: Vec<u8>)
        ensures
            r@ == Self::encoding(*self),
    {
        let mut vs = Vec::new();
        vs.push(FieldValue::Flag(self.polarity));
        assert(vs@ == seq![FieldValue::Flag(self.polarity)]);
        write_record(&vs)
    }
}

/// A value stored under the first encabulator schema reads under the current
/// one with its polarity kept and no spin rate.
pub proof fn lemma_encabulator_upgrade(v: EncabulatorConfigV1)
    ensures
        EncabulatorConfig::decoding(EncabulatorConfigV1::encoding(v)) == Some(
            EncabulatorConfig { polarity: v.polarity, spinrate: None },
        ),
{
    let vs = seq![FieldValue::Flag(v.polarity)];
    assert(fits(vs[0], encabulator_kinds()[0]));
    lemma_record_round_trip(vs, encabulator_kinds());
    let f = fields_of(vs, 2);
    assert(f[0] == Some(FieldValue::Flag(v.polarity)));
    assert(f[1] is None);
}

impl Default for EncabulatorConfig {
    fn default() -> (r: Self)
        ensures
            r == (EncabulatorConfig { polarity: false, spinrate: None }),
    {
        EncabulatorConfig { polarity: false, spinrate: None }
    }
}

impl ConfigValue for EncabulatorConfig {
    open spec fn declared_default() -> Self {
        EncabulatorConfig { polarity: false, spinrate: None }
    }

    open spec fn encoding(v: Self) -> Seq<u8> {
        record_bytes(encabulator_fields(v))
    }

    open spec fn decoding(b: Seq<u8>) -> Option<Self> {
        match read_record(b, encabulator_kinds()) {
            Some(f) => encabulator_from(f),
            None => None,
        }
    }

    fn default_value() -> (r: Self) {
        Self::default()
    }

    fn encode(&self) -> (r: Vec<u8>) {
        let mut vs = Vec::new();
        vs.push(FieldValue::Flag(self.polarity));
        match self.spinrate {
            Some(n) => vs.push(FieldValue::Uint(n)),
            None => {},
        }
        assert(vs@ == encabulator_fields(*self));
        write_record(&vs)
    }

    fn decode(b: &[u8]) -> (r: Option<Self>) {
        let kinds = encabulator_kind_list();
        let f = match read(b, &kinds) {
            Some(f) => f,
            None => {
                return None;
            },
        };
        if f.len() < 2 {
            return None;
        }
        match f[0] {
            Some(FieldValue::Flag(p)) => match f[1] {
                Some(FieldValue::Uint(n)) => Some(EncabulatorConfig { polarity: p, spinrate: Some(n) }),
                Some(FieldValue::Flag(_)) => None,
                _ => Some(EncabulatorConfig { polarity: p, spinrate: None }),
            },
            _ => None,
        }
    }

    fn duplicate(&self) -> (r: Self) {
        *self
    }

    proof fn lemma_round_trip(v: Self) {
        let vs = encabulator_fields(v);
        assert(forall|j: int| 0 <= j < vs.len() ==> fits(#[trigger] vs[j], encabulator_kinds()[j]));
        lemma_record_round_trip(vs, encabulator_kinds());
        let f = fields_of(vs, 2);
        assert(f[0] == Some(FieldValue::Flag(v.polarity)));
    }
}

impl Default for PositronConfig {
    fn default() -> (r: Self)
        ensures
            r == (PositronConfig { up: 10, down: 20, strange: 103 }),
    {
        Self { up: 10, down: 20, strange: 103 }
    }
}

impl ConfigValue for PositronConfig {
    open spec fn declared_default() -> Self {
        PositronConfig { up: 10, down: 20, strange: 103 }
    }

    open spec fn encoding(v: Self) -> Seq<u8> {
        record_bytes(positron_fields(v))
    }

    open spec fn decoding(b: Seq<u8>) -> Option<Self> {
        match read_record(b, positron_kinds()) {
            Some(f) => positron_from(f),
            None => None,
        }
    }

    fn default_value() -> (r: Self) {
        Self::default()
    }

    fn encode(&self) -> (r: Vec<u8>) {
        let mut vs = Vec::new();
        vs.push(FieldValue::Uint(self.up as u32));
        vs.push(FieldValue::Uint(self.down as u32));
        vs.push(FieldValue::Uint(self.strange));
        assert(vs@ == positron_fields(*self));
        write_record(&vs)
    }

    fn decode(b: &[u8]) -> (r: Option<Self>) {
        let kinds = positron_kind_list();
        let f = match read(b, &kinds) {
            Some(f) => f,
            None => {
                return None;
            },
        };
        if f.len() < 3 {
            return None;
        }
        match (f[0], f[1], f[2]) {
            (Some(FieldValue::Uint(a)), Some(FieldValue::Uint(b)), Some(FieldValue::Uint(c))) => {
                if a <= 0xff && b <= 0xffff {
                    Some(PositronConfig { up: a as u8, down: b as u16, strange: c })
                } else {
                    None
                }
            },
            _ => None,
        }
    }

    fn duplicate(&self) -> (r: Self) {
        *self
    }

    proof fn lemma_round_trip(v: Self) {
        let vs = positron_fields(v);
        assert(forall|j: int| 0 <= j < vs.len() ==> fits(#[trigger] vs[j], positron_kinds()[j]));
        lemma_record_round_trip(vs, positron_kinds());
        let f = fields_of(vs, 3);
        assert(f[0] == Some(FieldValue::Uint(v.up as u32)));
        assert(f[1] == Some(FieldValue::Uint(v.down as u32)));
        assert(f[2] == Some(FieldValue::Uint(v.strange)));
    }
}

} // verus!
