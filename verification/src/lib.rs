//! A verified codec for the RESP2 wire format: five tagged value kinds plus
//! two null variants, parsed from and encoded to their line-oriented,
//! length-prefixed byte form.

mod encoder;
mod laws;
mod numbers;
mod parser;
mod value;
mod wire;

pub use encoder::dump;
pub use encoder::encoding;
pub use laws::lemma_dump_parse_round_trip;
pub use laws::lemma_parse_of_encoding;
pub use parser::parse;
pub use parser::spec_parse;
pub use value::line_text;
pub use value::valid_resp;
pub use value::DumpError;
pub use value::ParseError;
pub use value::RespView;
pub use value::RESP;
