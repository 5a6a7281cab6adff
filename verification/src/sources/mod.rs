//! Pieces of the bundled manga sources that compute on bytes: scanning the
//! HTML, JSON and script text sites return, and writing the JSON answers.
pub mod text;
pub mod bh3;
pub mod dm5;
pub mod dm5_pages;
pub mod dongmanmanhua;
pub mod example_demo;
pub mod hanman18;
pub mod hanman18_pages;
pub mod happymh;
pub mod happymh_html;
pub mod happymh_items;
pub mod happymh_lists;
pub mod iqiyi;
pub mod jiuermanhua;
pub mod jiuermanhua_pages;
pub mod manhuagui;
pub mod manhuagui_detail;
pub mod manhuagui_lists;
pub mod manhuagui_pages;
pub mod manhuaren;
pub mod manhuaren_json;
pub mod manhuashe;
pub mod mh1234;
pub mod site;
