pub mod bytes;
pub mod chat;
pub mod decode;
pub mod encode;
pub mod formatting;
pub mod gzip;
pub mod kind;
pub mod literal;
pub mod location;
pub mod nbt;
pub mod parser;
pub mod printer;
pub mod reader;
pub mod tag;

pub use chat::{
    ClickAction, ClickActionError, ClickEvent, ClickEventError, ComponentContent, ComponentError,
    Style, StyleError, TextColor, TextComponent, TranslatableComponent,
};
pub use decode::DecodeError;
pub use formatting::ChatFormatting;
pub use kind::Kind;
pub use location::{ResourceLocation, ResourceLocationError};
pub use nbt::{EncodeError, Nbt};
pub use parser::{FloatText, Parser};
pub use printer::PrintError;
pub use reader::{ParseError, Reader};
pub use tag::{Segment, Tag, TagError};
pub mod roundtrip;
pub mod text_round_trip;
