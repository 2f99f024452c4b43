pub mod city;
pub mod coordinates;
pub mod uf;
