pub mod twig_interp;
pub mod twig_parser;
