use crate::address::IpAddress;
use vstd::prelude::*;

verus! {

/// The signature bytes that a qualifying reply must contain: the text
/// `Sonos` (83, 111, 110, 111, 115 are its character codes).
pub open spec fn signature() -> Seq<u8> {
    seq![83u8, 111u8, 110u8, 111u8, 115u8]
}

/// The payload holds the signature as a contiguous run of bytes.
///
/// The signature is plain ASCII, and ASCII bytes decode to themselves
/// under lenient text decoding, so this is also containment of the
/// signature in the payload read as text.
pub open spec fn has_signature(payload: Seq<u8>) -> bool {
    exists|i: int|
        0 <= i && i + signature().len() <= payload.len()
            && #[trigger] payload.subrange(i, i + signature().len()) == signature()
}

/// One reply's effect on the collected addresses: the sender is
/// appended exactly when there is still room under the device bound,
/// the sender is new, and the payload carries the signature; any other
/// reply changes nothing.
pub open spec fn step_spec(
    found: Seq<IpAddress>,
    bound: int,
    sender: IpAddress,
    payload: Seq<u8>,
) -> Seq<IpAddress> {
    if found.len() < bound && !found.contains(sender) && has_signature(payload) {
        found.push(sender)
    } else {
        found
    }
}

/// The addresses collected from a whole sequence of received
/// datagrams, each a sender address with its payload, processed in
/// arrival order.
pub open spec fn collect_spec(bound: int, replies: Seq<(IpAddress, Seq<u8>)>) -> Seq<IpAddress>
    decreases replies.len(),
{
    if replies.len() == 0 {
        Seq::empty()
    } else {
        step_spec(
            collect_spec(bound, replies.drop_last()),
            bound,
            replies.last().0,
            replies.last().1,
        )
    }
}

/// Whether `payload` holds the signature bytes.
pub fn contains_signature(payload: &Vec<u8>) -> (r: bool)
    ensures
        r == has_signature(payload@),
{
    let n = payload.len();
    if n < 5 {
        proof {
            if has_signature(payload@) {
                let i = choose|i: int|
                    0 <= i && i + signature().len() <= payload@.len()
                        && #[trigger] payload@.subrange(i, i + signature().len())
                            == signature();
                assert(false);
            }
        }
        return false;
    }
    let mut i: usize = 0;
    while i <= n - 5
        invariant
            n == payload@.len(),
            5 <= n,
            i <= n - 4,
            forall|k: int| 0 <= k < i ==> #[trigger] payload@.subrange(k, k + 5) != signature(),
        decreases n - i,
    {
        if payload[i] == 83 && payload[i + 1] == 111 && payload[i + 2] == 110
            && payload[i + 3] == 111 && payload[i + 4] == 115 {
            proof {
                assert(payload@.subrange(i as int, i as int + 5) =~= signature());
            }
            return true;
        }
        proof {
            let w = payload@.subrange(i as int, i as int + 5);
            if w == signature() {
                assert(w[0] == payload@[i as int] && w[1] == payload@[i as int + 1]
                    && w[2] == payload@[i as int + 2] && w[3] == payload@[i as int + 3]
                    && w[4] == payload@[i as int + 4]);
            }
        }
        i += 1;
    }
    proof {
        if has_signature(payload@) {
            let k = choose|k: int|
                0 <= k && k + signature().len() <= payload@.len()
                    && #[trigger] payload@.subrange(k, k + signature().len()) == signature();
            assert(k < i);
            assert(false);
        }
    }
    false
}

/// Membership of `addr` among the addresses in `v`.
fn contains_address(v: &Vec<IpAddress>, addr: IpAddress) -> (r: bool)
    ensures
        r == v@.contains(addr),
{
    let mut i: usize = 0;
    while i < v.len()
        invariant
            i <= v@.len(),
            forall|k: int| 0 <= k < i ==> v@[k] != addr,
        decreases v@.len() - i,
    {
        if v[i] == addr {
            return true;
        }
        i += 1;
    }
    false
}

/// The bounded, deduplicating, signature-filtering receive-loop state
/// of one search: which addresses have answered so far, how many are
/// wanted at most, and the overall timeout the driving loop must obey.
///
/// The caller that owns the socket runs the loop: between receive
/// attempts it consults [`Collector::keep_searching`] with the elapsed
/// wall-clock seconds, and it hands every received datagram to
/// [`Collector::process_reply`].
pub struct Collector {
    devices: Vec<IpAddress>,
    timeout_secs: u32,
    max_devices: usize,
}

impl Collector {
    /// The addresses collected so far, in insertion order.
    pub closed spec fn found(&self) -> Seq<IpAddress> {
        self.devices@
    }

    /// The overall timeout in seconds.
    pub closed spec fn timeout(&self) -> u32 {
        self.timeout_secs
    }

    /// The requested bound on the number of distinct devices.
    pub closed spec fn device_bound(&self) -> int {
        self.max_devices as int
    }

    /// A collector never holds an address twice and never exceeds its
    /// device bound.
    pub open spec fn wf(&self) -> bool {
        &&& forall|i: int, j: int|
            0 <= i < j < self.found().len() ==> self.found()[i] != self.found()[j]
        &&& self.found().len() <= self.device_bound()
    }

    /// A fresh collector for one search: nothing found yet.
    pub fn new(timeout_secs: u32, max_devices: usize) -> (c: Collector)
        ensures
            c.wf(),
            c.found() == Seq::<IpAddress>::empty(),
            c.timeout() == timeout_secs,
            c.device_bound() == max_devices,
    {
        Collector { devices: Vec::new(), timeout_secs, max_devices }
    }

    /// The loop condition between receive attempts: the overall
    /// deadline has not passed and the device bound is not reached.
    pub fn keep_searching(&self, elapsed_secs: u64) -> (r: bool)
        ensures
            r <==> (elapsed_secs < self.timeout() && self.found().len() < self.device_bound()),
    {
        elapsed_secs < self.timeout_secs as u64 && self.devices.len() < self.max_devices
    }

    /// Classifies one received datagram and records its sender when it
    /// qualifies: the payload is non-empty and carries the signature,
    /// the sender has not answered before, and there is room left.
    /// Returns whether the sender was recorded; every other reply is
    /// treated as noise and changes nothing.
    pub fn process_reply(&mut self, sender: IpAddress, payload: &Vec<u8>) -> (added: bool)
        requires
            old(self).wf(),
        ensures
            final(self).wf(),
            final(self).found() == step_spec(
                old(self).found(),
                old(self).device_bound(),
                sender,
                payload@,
            ),
            added <==> final(self).found() != old(self).found(),
            final(self).timeout() == old(self).timeout(),
            final(self).device_bound() == old(self).device_bound(),
    {
        if payload.len() == 0 {
            proof {
                lemma_empty_reply_ignored(self.found(), self.device_bound(), sender, payload@);
            }
            return false;
        }
        if self.devices.len() >= self.max_devices {
            return false;
        }
        if contains_address(&self.devices, sender) {
            return false;
        }
        if contains_signature(payload) {
            self.devices.push(sender);
            return true;
        }
        false
    }

    /// The collected addresses, in insertion order.
    pub fn devices(&self) -> (r: Vec<IpAddress>)
        ensures
            r@ == self.found(),
    {
        let mut out: Vec<IpAddress> = Vec::new();
        let mut i: usize = 0;
        while i < self.devices.len()
            invariant
                i <= self.devices@.len(),
                out@ == self.devices@.take(i as int),
            decreases self.devices@.len() - i,
        {
            out.push(self.devices[i]);
            proof {
                assert(self.devices@.take(i as int + 1)
                    =~= self.devices@.take(i as int).push(self.devices@[i as int]));
            }
            i += 1;
        }
        proof {
            assert(self.devices@.take(self.devices@.len() as int) =~= self.devices@);
        }
        out
    }
}

/// An empty payload is ignored: it neither enters the uniqueness
/// bookkeeping nor changes the collected addresses.
pub proof fn lemma_empty_reply_ignored(
    found: Seq<IpAddress>,
    bound: int,
    sender: IpAddress,
    payload: Seq<u8>,
)
    requires
        payload.len() == 0,
    ensures
        step_spec(found, bound, sender, payload) == found,
{
    if has_signature(payload) {
        let i = choose|i: int|
            0 <= i && i + signature().len() <= payload.len()
                && #[trigger] payload.subrange(i, i + signature().len()) == signature();
        assert(false);
    }
}

/// A reply whose body does not carry the signature never changes the
/// collected addresses.
pub proof fn lemma_unsigned_reply_ignored(
    found: Seq<IpAddress>,
    bound: int,
    sender: IpAddress,
    payload: Seq<u8>,
)
    requires
        !has_signature(payload),
    ensures
        step_spec(found, bound, sender, payload) == found,
{
}

/// A reply from an address that has already been collected changes
/// nothing, however many further replies that device sends.
pub proof fn lemma_duplicate_reply_ignored(
    found: Seq<IpAddress>,
    bound: int,
    sender: IpAddress,
    payload: Seq<u8>,
)
    requires
        found.contains(sender),
    ensures
        step_spec(found, bound, sender, payload) == found,
{
}

/// Whatever datagrams arrive, in whatever order, the collected
/// addresses hold no duplicate: a device that answers many times is
/// recorded once.
pub proof fn lemma_no_duplicates(bound: int, replies: Seq<(IpAddress, Seq<u8>)>)
    ensures
        forall|i: int, j: int|
            0 <= i < j < collect_spec(bound, replies).len()
                ==> collect_spec(bound, replies)[i] != collect_spec(bound, replies)[j],
    decreases replies.len(),
{
    if replies.len() > 0 {
        lemma_no_duplicates(bound, replies.drop_last());
        let prev = collect_spec(bound, replies.drop_last());
        let cur = collect_spec(bound, replies);
        let sender = replies.last().0;
        if cur != prev {
            assert(cur == prev.push(sender));
            assert(forall|k: int| 0 <= k < prev.len() ==> prev[k] != sender);
        }
    }
}

/// Whatever datagrams arrive, the collected addresses never exceed
/// the requested device bound.
pub proof fn lemma_device_bound_respected(bound: int, replies: Seq<(IpAddress, Seq<u8>)>)
    requires
        bound >= 0,
    ensures
        collect_spec(bound, replies).len() <= bound,
    decreases replies.len(),
{
    if replies.len() > 0 {
        lemma_device_bound_respected(bound, replies.drop_last());
    }
}

/// An address stands among the collected ones only on the strength of
/// a reply of its own whose payload carries the signature: replies
/// without the signature never place their sender in the result.
pub proof fn lemma_only_qualifying_replies(bound: int, replies: Seq<(IpAddress, Seq<u8>)>)
    ensures
        forall|a: IpAddress|
            collect_spec(bound, replies).contains(a)
                ==> exists|k: int|
                    0 <= k < replies.len() && (#[trigger] replies[k]).0 == a
                        && has_signature(replies[k].1),
    decreases replies.len(),
{
    if replies.len() > 0 {
        lemma_only_qualifying_replies(bound, replies.drop_last());
        let prev = collect_spec(bound, replies.drop_last());
        let cur = collect_spec(bound, replies);
        let sender = replies.last().0;
        let payload = replies.last().1;
        assert forall|a: IpAddress| cur.contains(a) implies exists|k: int|
            0 <= k < replies.len() && (#[trigger] replies[k]).0 == a
                && has_signature(replies[k].1) by {
            if prev.contains(a) {
                let k = choose|k: int|
                    0 <= k < replies.drop_last().len()
                        && (#[trigger] replies.drop_last()[k]).0 == a
                        && has_signature(replies.drop_last()[k].1);
                assert(replies[k] == replies.drop_last()[k]);
                assert(0 <= k < replies.len() && replies[k].0 == a
                    && has_signature(replies[k].1));
            } else {
                assert(cur == prev.push(sender));
                let i = choose|i: int| 0 <= i < cur.len() && cur[i] == a;
                assert(a == sender);
                assert(has_signature(payload));
                let k = replies.len() - 1;
                assert(replies[k].0 == a && has_signature(replies[k].1));
            }
        }
    }
}

} // verus!
