//! The server's options and the handshake that opens a benchmark session.
use vstd::prelude::*;

verus! {

/// Command-line options of the server.
pub struct Options {
    /// Which map the server runs.
    pub map: String,
}

impl Default for Options {
    /// The map defaults to `DashMap`.
    fn default() -> (o: Self)
        ensures
            o.map@ == "DashMap"@,
    {
        Options { map: String::from_str("DashMap") }
    }
}

/// A key or a value of the benchmark map: an integer or a string.
#[derive(Clone, Debug, PartialEq, Eq, Hash)]
pub enum KeyValueType {
    Int(u64),
    String(String),
}

/// What a key or value stands for: its integer, or the characters of its string.
/// Two keys are equal, and hash alike, exactly when their views are equal.
pub enum KeyView {
    Int(u64),
    Str(Seq<char>),
}

impl View for KeyValueType {
    type V = KeyView;

    open spec fn view(&self) -> KeyView {
        match self {
            KeyValueType::Int(v) => KeyView::Int(*v),
            KeyValueType::String(s) => KeyView::Str(s@),
        }
    }
}

/// The first message of a session: thread counts, batch size, the map's
/// capacity as a power of two, and the kinds of keys and values.
pub struct HandShakeRequest {
    pub client_threads: usize,
    pub server_threads: usize,
    pub ops_per_req: usize,
    pub capacity: usize,
    pub key_type: KeyValueType,
    pub value_type: KeyValueType,
}

impl HandShakeRequest {
    /// The capacity to make the map with: 2 to the power `capacity`.
    pub fn map_capacity(&self) -> (c: usize)
        requires
            self.capacity < usize::BITS,
        ensures
            c == vstd::arithmetic::power2::pow2(self.capacity as nat),
    {
        let mut c: usize = 1;
        let mut i: usize = 0;
        proof {
            vstd::arithmetic::power2::lemma2_to64();
        }
        while i < self.capacity
            invariant
                i <= self.capacity,
                self.capacity < usize::BITS,
                c == vstd::arithmetic::power2::pow2(i as nat),
            decreases self.capacity - i,
        {
            proof {
                vstd::arithmetic::power2::lemma_pow2_unfold((i + 1) as nat);
                vstd::arithmetic::power2::lemma_pow2_strictly_increases((i + 1) as nat, usize::BITS as nat);
                vstd::arithmetic::power2::lemma2_to64();
                vstd::arithmetic::power2::lemma2_to64_rest();
            }
            c = c * 2;
            i = i + 1;
        }
        c
    }

    /// The number of connections the session opens: two per client thread.
    pub fn worker_connections(&self) -> (n: usize)
        requires
            2 * self.client_threads <= usize::MAX,
        ensures
            n == 2 * self.client_threads,
    {
        self.client_threads * 2
    }
}

} // verus!
