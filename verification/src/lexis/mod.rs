pub mod token;
pub mod site;
