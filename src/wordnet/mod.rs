pub mod sap;
