//! Reading and writing AAF, the Advanced Authoring Format, and the compound
//! file container it is stored in.

pub mod bytes;
pub mod text;
pub mod auid;
pub mod builtin;
pub mod mob_id;
pub mod utf16;
pub mod error;
pub mod cfb;
pub mod property;
pub mod metadict;
pub mod value;
pub mod object;
pub mod reader;
pub mod write;


pub use auid::{Auid, ParseAuidError};
pub use error::{Error, Result};
pub use mob_id::{MobId, ParseMobIdError};
pub use metadict::{ClassDef, MetaDictionary, PropertyDef, TypeDef, TypeKind};
pub use object::{AafFile, Object};
pub use reader::Aaf;
pub use value::Value;
