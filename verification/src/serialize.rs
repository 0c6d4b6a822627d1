use crate::http_messages::{
    headers_bytes, serialized_bytes, HeaderName, HeaderValue, HttpMessage, HttpResponse,
    response_parse,
};
use vstd::prelude::*;
use vstd::utf8::encode_utf8;

verus! {

/// Renders a message into its wire bytes: start line, header lines, an
/// empty line, then the body.
pub trait Serialize: HttpMessage {
    fn serialize(self) -> (r: Vec<u8>)
        ensures
            r@ == serialized_bytes(self.start_line(), self.headers_of(), self.body_of()),
    ;
}

/// Parses a value back out of wire bytes.
pub trait Deserialize: Sized {
    fn desrialize(buffer: Vec<u8>) -> Result<Self, String>;
}

impl<T: HttpMessage> Serialize for T {
    fn serialize(self) -> (r: Vec<u8>) {
        let mut result: Vec<u8> = Vec::new();
        let start = self.get_start_line();
        result.extend_from_slice(start.as_str().as_bytes());
        result.push(13);
        result.push(10);
        let ghost prefix = encode_utf8(self.start_line()) + seq![13u8, 10u8];
        proof {
            assert(result@ =~= prefix);
        }
        let headers = self.get_headers();
        let mut i: usize = 0;
        while i < headers.len()
            invariant
                0 <= i <= headers@.len(),
                headers@ == self.headers_of(),
                result@ == prefix + headers_bytes(self.headers_of().take(i as int)),
            decreases headers@.len() - i,
        {
            let ghost before = result@;
            let h = &headers[i];
            result.extend_from_slice(h.0.name.as_str().as_bytes());
            result.push(58);
            result.push(32);
            result.extend_from_slice(h.1.value.as_str().as_bytes());
            result.push(13);
            result.push(10);
            proof {
                let hs = self.headers_of();
                assert(hs.take(i + 1).drop_last() =~= hs.take(i as int));
                assert(hs.take(i + 1).last() == hs[i as int]);
                assert(result@ =~= before + (encode_utf8(hs[i as int].0.name@) + seq![58u8, 32u8]
                    + encode_utf8(hs[i as int].1.value@) + seq![13u8, 10u8]));
                assert(result@ =~= prefix + headers_bytes(hs.take(i + 1)));
            }
            i = i + 1;
        }
        proof {
            assert(self.headers_of().take(self.headers_of().len() as int) =~= self.headers_of());
        }
        result.push(13);
        result.push(10);
        let body = self.get_body();
        result.extend_from_slice(body.as_slice());
        proof {
            assert(result@ =~= serialized_bytes(
                self.start_line(),
                self.headers_of(),
                self.body_of(),
            ));
        }
        result
    }
}

impl Deserialize for HttpResponse {
    fn desrialize(buffer: Vec<u8>) -> (r: Result<Self, String>)
        ensures
            response_parse(buffer@) matches Some(m) ==> (r matches Ok(resp) && resp.protocol@
                == m.protocol && resp.result as int == m.result && resp.result_string@ == m.reason
                && resp.headers@.map_values(
                |h: (HeaderName, HeaderValue)| (h.0.name@, h.1.value@),
            ) == m.headers && resp.body@ == m.body),
            response_parse(buffer@) is None ==> r is Err,
    {
        HttpResponse::desrialize(buffer)
    }
}

} // verus!
