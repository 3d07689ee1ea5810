//! Packets received over ESP-NOW, copied out of the radio buffer.
use vstd::prelude::*;

verus! {

/// Largest payload kept from a packet.
pub const MAX_PAYLOAD: usize = 256;

/// A received packet: sender MAC, RSSI, and the first `len` bytes of `data`
/// holding the payload.
#[derive(Clone, Copy)]
pub struct RxPacket {
    pub src: [u8; 6],
    pub rssi: i8,
    pub len: usize,
    pub data: [u8; 256],
}

impl RxPacket {
    /// Copies a received payload (cut to `MAX_PAYLOAD` bytes) into a packet;
    /// the unused tail of `data` is zero.
    pub fn from_payload(src: [u8; 6], rssi: i8, payload: &[u8]) -> (p: RxPacket)
        ensures
            p.src == src,
            p.rssi == rssi,
            p.len == (if payload@.len() < MAX_PAYLOAD {
                payload@.len()
            } else {
                MAX_PAYLOAD as nat
            }),
            forall|i: int| 0 <= i < p.len ==> #[trigger] p.data@[i] == payload@[i],
            forall|i: int| p.len <= i < MAX_PAYLOAD ==> #[trigger] p.data@[i] == 0,
    {
        let len = if payload.len() < MAX_PAYLOAD {
            payload.len()
        } else {
            MAX_PAYLOAD
        };
        let mut data = [0u8; 256];
        for i in 0..len
            invariant
                len <= MAX_PAYLOAD,
                len <= payload@.len(),
                forall|k: int| 0 <= k < i ==> #[trigger] data@[k] == payload@[k],
                forall|k: int| i <= k < MAX_PAYLOAD ==> #[trigger] data@[k] == 0,
        {
            data[i] = payload[i];
        }
        RxPacket { src, rssi, len, data }
    }

    /// The payload bytes.
    pub fn payload(&self) -> (r: &[u8])
        requires
            self.len <= MAX_PAYLOAD,
        ensures
            r@ == self.data@.take(self.len as int),
    {
        let s = self.data.as_slice();
        slice_prefix(s, self.len)
    }
}

/// The first `n` elements of a slice.
fn slice_prefix(s: &[u8], n: usize) -> (r: &[u8])
    requires
        n <= s@.len(),
    ensures
        r@ == s@.take(n as int),
{
    s.split_at(n).0
}

} // verus!
