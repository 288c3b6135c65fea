//! Verified core of a CASA table system: the AipsIO object stream, table
//! records and descriptions, the StandardStMan and IncrementalStMan data
//! files, tables created, read, written and grown in memory, lock-file sync
//! records, Measurement Set schemas and physical units.
//!
//! Files, locks and floating point are left to the callers: the library takes
//! and gives the bytes of files and the bit patterns of numbers.

// Bytes, texts and streams.
pub mod bytes;
pub mod text;
pub mod paths;
pub mod aipsio;
pub mod items;

// Records and table descriptions.
pub mod types;
pub mod record;
pub mod recordio;
pub mod recordout;
pub mod recordlaw;
pub mod json;
pub mod tabledesc;
pub mod desclaw;
pub mod defaults;
pub mod columnset;
pub mod setlaw;

// StandardStMan data files.
pub mod ssm;
pub mod ssmcell;
pub mod ssmout;
pub mod ssmfile;
pub mod ssmlaw;
pub mod strings;
pub mod celllaw;
pub mod ssmdata;
pub mod datalaw;

// IncrementalStMan data files.
pub mod ism;
pub mod ismout;
pub mod ismlaw;
pub mod ismdata;

// Tables.
pub mod table;
pub mod tableread;
pub mod tablecells;
pub mod rawcells;
pub mod slice;
pub mod tableinfo;
pub mod dminfo;
pub mod dmlist;
pub mod tiled;
pub mod tablecreate;
pub mod tablelaw;
pub mod rowset;
pub mod writetable;
pub mod flush;
pub mod writelaw;
pub mod flushlaw;
pub mod ms;

// Files changed in place.
pub mod arrayfile;
pub mod tilepatch;
pub mod tilelaw;
pub mod tilegrow;
pub mod growdat;
pub mod ssmgrow;
pub mod ismgrow;
pub mod growfile;
pub mod growlaw;
pub mod growread;
pub mod ismread;

// Locks.
pub mod lockfile;
pub mod lockstate;

// Units, quantities and dates.
pub mod calendar;
pub mod unittable;
pub mod units;
pub mod unitlaw;
pub mod quanta;
