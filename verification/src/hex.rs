use vstd::prelude::*;

verus! {

#[derive(Clone, Copy, Debug, PartialEq, Eq, Structural)]
pub enum HexError {
    OutOfBounds,
}

/// The lowercase hex digit standing for a value below sixteen.
pub open spec fn hex_digit(val: u8) -> char {
    if val <= 9 {
        (48 + val) as char
    } else {
        (87 + val) as char
    }
}

/// Renders byte values as pairs of lowercase hex digits.
pub trait ToHex: Sized {
    /// The digit this rendering uses for a value below sixteen.
    spec fn hex_of(val: u8) -> Self;

    fn to_hex(val: u8) -> (r: Result<Self, HexError>)
        ensures
            val < 16 ==> (r matches Ok(c) && c == Self::hex_of(val)),
            val >= 16 ==> r == Err::<Self, HexError>(HexError::OutOfBounds),
    ;

    /// Two digits per byte, high nibble first.
    fn encode(data: &Vec<u8>) -> (r: Vec<Self>)
        ensures
            r@.len() == 2 * data@.len(),
            forall|i: int|
                0 <= i < data@.len() ==> r@[2 * i] == Self::hex_of(#[trigger] data@[i] / 16)
                    && r@[2 * i + 1] == Self::hex_of(data@[i] % 16),
    ;
}

impl ToHex for char {
    open spec fn hex_of(val: u8) -> char {
        hex_digit(val)
    }

    fn to_hex(val: u8) -> (r: Result<Self, HexError>)
        ensures
            val < 16 ==> (r matches Ok(c) && c == Self::hex_of(val)),
            val >= 16 ==> r == Err::<Self, HexError>(HexError::OutOfBounds),
    {
        if val <= 9 {
            Ok((48 + val) as char)
        } else if val < 16 {
            Ok((87 + val) as char)
        } else {
            Err(HexError::OutOfBounds)
        }
    }

    fn encode(data: &Vec<u8>) -> (r: Vec<char>)
        ensures
            r@.len() == 2 * data@.len(),
            forall|i: int|
                0 <= i < data@.len() ==> r@[2 * i] == Self::hex_of(#[trigger] data@[i] / 16)
                    && r@[2 * i + 1] == Self::hex_of(data@[i] % 16),
    {
        let mut result: Vec<char> = Vec::new();
        let mut idx: usize = 0;
        while idx < data.len()
            invariant
                0 <= idx <= data@.len(),
                result@.len() == 2 * idx,
                forall|i: int|
                    0 <= i < idx ==> result@[2 * i] == hex_digit(#[trigger] data@[i] / 16)
                        && result@[2 * i + 1] == hex_digit(data@[i] % 16),
            decreases data@.len() - idx,
        {
            let byte = data[idx];
            let high = byte / 16;
            let low = byte % 16;
            let high_char = match char::to_hex(high) {
                Ok(c) => c,
                Err(_) => '0',
            };
            let low_char = match char::to_hex(low) {
                Ok(c) => c,
                Err(_) => '0',
            };
            result.push(high_char);
            result.push(low_char);
            idx = idx + 1;
        }
        result
    }
}

} // verus!
