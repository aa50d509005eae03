//! Message-level schema and value objects: a message is an identified,
//! fixed-length payload carrying an ordered list of signals; its value object
//! holds one storage-level field per signal and decodes from or encodes into
//! a caller-supplied buffer, after a length check.

use vstd::prelude::*;

use crate::signal::SignalSchema;

verus! {

/// One message of a DBC schema: name, frame identifier, payload length in
/// bytes, optional cycle time in milliseconds, and its signals in order.
pub struct MessageSchema {
    /// Message name as written in the schema.
    pub name: String,
    /// Frame identifier (11-bit standard or 29-bit extended).
    pub id: u32,
    /// Whether the identifier is a 29-bit extended one.
    pub extended: bool,
    /// Payload length in bytes, 1 to 64.
    pub dlc: u64,
    /// Cycle time in milliseconds, when the schema carries one.
    pub cycle_time: Option<u64>,
    /// The message's signals, in schema order.
    pub signals: Vec<SignalSchema>,
}

impl MessageSchema {
    /// Well-formedness: a legal payload length, and every signal inside it.
    pub open spec fn wf(self) -> bool {
        &&& 1 <= self.dlc <= 64
        &&& forall|i: int|
            0 <= i < self.signals@.len() ==> (#[trigger] self.signals@[i]).wf()
                && self.signals@[i].fits(self.dlc as int)
    }

    /// The storage-level field values that decoding a payload of the right
    /// length yields, one per signal.
    pub open spec fn decoded_fields(self, pdu: Seq<u8>) -> Seq<u64> {
        Seq::new(self.signals@.len(), |i: int| self.signals@[i].decode_spec(pdu) as u64)
    }

    /// The payload produced by encoding the first `n` fields in order into
    /// `pdu`; signals without an encoder leave the payload untouched.
    pub open spec fn encoded(self, pdu: Seq<u8>, fields: Seq<u64>, n: int) -> Seq<u8>
        decreases n,
    {
        if n <= 0 {
            pdu
        } else {
            let prev = self.encoded(pdu, fields, n - 1);
            let sig = self.signals@[n - 1];
            if sig.encode_supported() {
                sig.spec_insert(prev, fields[n - 1])
            } else {
                prev
            }
        }
    }

    /// Create a message schema with no signals yet.
    pub fn new(name: String, id: u32, extended: bool, dlc: u64, cycle_time: Option<u64>) -> (r:
        Self)
        requires
            1 <= dlc <= 64,
        ensures
            r.wf(),
            r.name == name,
            r.id == id,
            r.extended == extended,
            r.dlc == dlc,
            r.cycle_time == cycle_time,
            r.signals@.len() == 0,
    {
        MessageSchema { name, id, extended, dlc, cycle_time, signals: Vec::new() }
    }

    /// Append a signal that lies inside the payload.
    pub fn push_signal(&mut self, sig: SignalSchema)
        requires
            old(self).wf(),
            sig.wf(),
            sig.fits(old(self).dlc as int),
        ensures
            final(self).wf(),
            final(self).signals@ == old(self).signals@.push(sig),
            final(self).name == old(self).name,
            final(self).id == old(self).id,
            final(self).extended == old(self).extended,
            final(self).dlc == old(self).dlc,
            final(self).cycle_time == old(self).cycle_time,
    {
        self.signals.push(sig);
    }
}

/// The runtime value object of one message: a storage-level field per
/// signal.  Unsigned fields hold their raw value, signed fields the
/// two's-complement storage value widened to 64 bits, boolean fields 0 or 1.
pub struct MessageValue {
    /// The message's schema.
    pub schema: MessageSchema,
    /// One storage-level value per signal, in schema order.
    pub fields: Vec<u64>,
}

impl MessageValue {
    /// Well-formedness: the schema's, and one field slot per signal.
    pub open spec fn wf(self) -> bool {
        &&& self.schema.wf()
        &&& self.fields@.len() == self.schema.signals@.len()
    }

    /// A value object with every field zero (false, for booleans).
    pub fn new(schema: MessageSchema) -> (r: Self)
        requires
            schema.wf(),
        ensures
            r.wf(),
            r.schema == schema,
            forall|i: int| 0 <= i < r.fields@.len() ==> r.fields@[i] == 0,
    {
        let n = schema.signals.len();
        let mut fields: Vec<u64> = Vec::new();
        let mut i: usize = 0;
        while i < n
            invariant
                i <= n,
                fields@.len() == i,
                forall|j: int| 0 <= j < i ==> fields@[j] == 0,
            decreases n - i,
        {
            fields.push(0);
            i = i + 1;
        }
        MessageValue { schema, fields }
    }

    /// Decode a payload into the fields.  A payload whose length is not the
    /// message's DLC is rejected: the result is false and the value object is
    /// untouched.  Otherwise every signal is decoded and the result is true.
    #[verifier::loop_isolation(false)]
    pub fn decode(&mut self, pdu: &[u8]) -> (ok: bool)
        requires
            old(self).wf(),
        ensures
            final(self).wf(),
            final(self).schema == old(self).schema,
            ok == (pdu@.len() as int == old(self).schema.dlc as int),
            !ok ==> *final(self) == *old(self),
            ok ==> final(self).fields@ == old(self).schema.decoded_fields(pdu@),
    {
        if pdu.len() != self.schema.dlc as usize {
            return false;
        }
        let n = self.schema.signals.len();
        let mut i: usize = 0;
        while i < n
            invariant
                i <= n,
                self.schema == old(self).schema,
                self.fields@.len() == n,
                forall|j: int|
                    0 <= j < i ==> self.fields@[j] == old(self).schema.decoded_fields(pdu@)[j],
            decreases n - i,
        {
            let v = self.schema.signals[i].decode(pdu);
            self.fields.set(i, v);
            i = i + 1;
        }
        proof {
            assert(self.fields@ =~= old(self).schema.decoded_fields(pdu@));
        }
        true
    }

    /// Encode the fields into a payload.  A payload whose length is not the
    /// message's DLC is rejected: the result is false and the payload is
    /// untouched.  Otherwise every signal with an encoder writes its field's
    /// bits in schema order, each write preserving all other payload bits,
    /// and the result is true.  The payload is not zeroed first: bits no
    /// signal writes keep the caller's prior content.
    #[verifier::loop_isolation(false)]
    pub fn encode(&self, pdu: &mut Vec<u8>) -> (ok: bool)
        requires
            self.wf(),
        ensures
            final(pdu)@.len() == old(pdu)@.len(),
            ok == (old(pdu)@.len() as int == self.schema.dlc as int),
            !ok ==> final(pdu)@ == old(pdu)@,
            ok ==> final(pdu)@ == self.schema.encoded(
                old(pdu)@,
                self.fields@,
                self.schema.signals@.len() as int,
            ),
    {
        if pdu.len() != self.schema.dlc as usize {
            return false;
        }
        let n = self.schema.signals.len();
        let mut i: usize = 0;
        while i < n
            invariant
                i <= n,
                pdu@.len() == old(pdu)@.len(),
                pdu@ == self.schema.encoded(old(pdu)@, self.fields@, i as int),
            decreases n - i,
        {
            let sig = &self.schema.signals[i];
            if sig.can_encode() {
                sig.insert(pdu, self.fields[i]);
            }
            i = i + 1;
        }
        true
    }

    /// Build a value object from a borrowed payload: default-construct and
    /// decode, yielding the populated object, or a unit error when the
    /// payload's length is not the message's DLC.
    pub fn try_from_pdu(schema: MessageSchema, data: &[u8]) -> (r: Result<MessageValue, ()>)
        requires
            schema.wf(),
        ensures
            r is Ok <==> data@.len() as int == schema.dlc as int,
            r is Ok ==> r->Ok_0.wf() && r->Ok_0.schema == schema && r->Ok_0.fields@
                == schema.decoded_fields(data@),
    {
        let mut v = MessageValue::new(schema);
        if v.decode(data) {
            Ok(v)
        } else {
            Err(())
        }
    }
}

/// Position of the first message of the given name in a schema list, the
/// lookup a selection performs for each chosen message.
#[verifier::loop_isolation(false)]
pub fn find_message(schemas: &Vec<MessageSchema>, name: &str) -> (r: Option<usize>)
    ensures
        match r {
            Some(i) => i < schemas@.len() && schemas@[i as int].name@ == name@ && (forall|j: int|
                0 <= j < i ==> schemas@[j].name@ != name@),
            None => forall|j: int| 0 <= j < schemas@.len() ==> schemas@[j].name@ != name@,
        },
{
    let owned: String = name.to_owned();
    let n = schemas.len();
    let mut i: usize = 0;
    while i < n
        invariant
            i <= n,
            owned@ == name@,
            forall|j: int| 0 <= j < i ==> schemas@[j].name@ != name@,
        decreases n - i,
    {
        if schemas[i].name == owned {
            return Some(i);
        }
        i = i + 1;
    }
    None
}

} // verus!
