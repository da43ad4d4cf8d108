use vstd::prelude::*;

verus! {

/// The lower-case hexadecimal digit of a value below 16.
pub open spec fn hex_digit(d: int) -> char {
    if d < 10 {
        (48 + d) as char
    } else {
        (87 + d) as char
    }
}

/// The two hexadecimal digits of a byte, most significant first.
pub open spec fn byte_hex(b: u8) -> Seq<char> {
    seq![hex_digit((b / 16) as int), hex_digit((b % 16) as int)]
}

/// The bytes written as two-digit lower-case hex, joined by colons.
pub open spec fn mac_text(bytes: Seq<u8>) -> Seq<char>
    decreases bytes.len(),
{
    if bytes.len() == 0 {
        seq![]
    } else if bytes.len() == 1 {
        byte_hex(bytes[0])
    } else {
        mac_text(bytes.drop_last()) + seq![':'] + byte_hex(bytes.last())
    }
}

proof fn lemma_hex_digit_injective(x: int, y: int)
    requires
        0 <= x < 16,
        0 <= y < 16,
        hex_digit(x) == hex_digit(y),
    ensures
        x == y,
{
    let cx = hex_digit(x);
    let cy = hex_digit(y);
    assert(cx as int == if x < 10 { 48 + x } else { 87 + x });
    assert(cy as int == if y < 10 { 48 + y } else { 87 + y });
}

/// Where the digits of each byte stand in the text: byte `i` is written at
/// positions `3i` and `3i + 1`.
proof fn lemma_mac_text_layout(bytes: Seq<u8>)
    requires
        bytes.len() > 0,
    ensures
        mac_text(bytes).len() == 3 * bytes.len() - 1,
        forall|i: int|
            #![trigger bytes[i]]
            0 <= i < bytes.len() ==> mac_text(bytes)[3 * i] == hex_digit((bytes[i] / 16) as int)
                && mac_text(bytes)[3 * i + 1] == hex_digit((bytes[i] % 16) as int),
    decreases bytes.len(),
{
    if bytes.len() > 1 {
        let d = bytes.drop_last();
        lemma_mac_text_layout(d);
        let t = mac_text(bytes);
        assert(t == mac_text(d) + seq![':'] + byte_hex(bytes.last()));
        assert forall|i: int| #![trigger bytes[i]] 0 <= i < bytes.len() implies t[3 * i] == hex_digit(
            (bytes[i] / 16) as int,
        ) && t[3 * i + 1] == hex_digit((bytes[i] % 16) as int) by {
            if i < bytes.len() - 1 {
                assert(d[i] == bytes[i]);
            }
        }
    }
}

/// Different addresses of the same length are written differently, so the
/// text of an address identifies it.
pub proof fn lemma_mac_text_injective(a: Seq<u8>, b: Seq<u8>)
    requires
        a.len() == b.len(),
        mac_text(a) == mac_text(b),
    ensures
        a == b,
{
    if a.len() > 0 {
        lemma_mac_text_layout(a);
        lemma_mac_text_layout(b);
        assert forall|i: int| 0 <= i < a.len() implies a[i] == b[i] by {
            assert(mac_text(a)[3 * i] == hex_digit((a[i] / 16) as int));
            assert(mac_text(b)[3 * i] == hex_digit((b[i] / 16) as int));
            lemma_hex_digit_injective((a[i] / 16) as int, (b[i] / 16) as int);
            lemma_hex_digit_injective((a[i] % 16) as int, (b[i] % 16) as int);
        }
    }
    assert(a =~= b);
}

/// A Bluetooth device address of six bytes.
#[derive(Debug, Clone, Copy)]
pub struct MacAddress(pub [u8; 6]);

impl From<[u8; 6]> for MacAddress {
    fn from(value: [u8; 6]) -> (r: Self) {
        MacAddress(value)
    }
}

impl vstd::std_specs::convert::FromSpecImpl<[u8; 6]> for MacAddress {
    open spec fn obeys_from_spec() -> bool {
        true
    }

    open spec fn from_spec(v: [u8; 6]) -> MacAddress {
        MacAddress(v)
    }
}

/// `String::push`: appends one character to the string.
#[verifier::external_body]
fn push_char(s: &mut String, c: char)
    ensures
        final(s)@ == old(s)@.push(c),
{
    s.push(c)
}

fn hex_char(d: u8) -> (c: char)
    requires
        d < 16,
    ensures
        c == hex_digit(d as int),
{
    if d < 10 {
        (48u8 + d) as char
    } else {
        (87u8 + d) as char
    }
}

impl MacAddress {
    /// The six bytes of the address, in order.
    pub open spec fn bytes(&self) -> Seq<u8> {
        self.0@
    }

    /// The address bytes as a slice.
    pub fn as_bytes(&self) -> (r: &[u8])
        ensures
            r@ == self.bytes(),
    {
        self.0.as_slice()
    }

    /// The address as six two-digit lower-case hex numbers joined by colons,
    /// such as `0a:1b:2c:3d:4e:5f`.
    pub fn to_string(&self) -> (r: String)
        ensures
            r@ == mac_text(self.bytes()),
            r@.len() == 17,
    {
        let mut res = String::new();
        let mut i: usize = 0;
        assert(self.0@.take(0) =~= Seq::<u8>::empty());
        while i < 6
            invariant
                i <= 6,
                self.0@.len() == 6,
                res@ == mac_text(self.0@.take(i as int)),
                i == 0 ==> res@.len() == 0,
                i > 0 ==> res@.len() == 3 * i - 1,
            decreases 6 - i,
        {
            let b = self.0[i];
            if i > 0 {
                push_char(&mut res, ':');
            }
            push_char(&mut res, hex_char(b / 16));
            push_char(&mut res, hex_char(b % 16));
            proof {
                let t = self.0@.take(i + 1);
                assert(t.drop_last() =~= self.0@.take(i as int));
                assert(t.last() == b);
                if i == 0 {
                    assert(res@ =~= byte_hex(b));
                } else {
                    assert(res@ =~= mac_text(t.drop_last()) + seq![':'] + byte_hex(b));
                }
            }
            i = i + 1;
        }
        assert(self.0@.take(6) =~= self.0@);
        res
    }
}

} // verus!
