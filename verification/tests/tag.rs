#[test]
fn tag_paired_tag() {
    html_query_parser::parse("<p></p>").unwrap();
    html_query_parser::parse("<div>Hello, world!</div>").unwrap();
}

#[test]
fn tag_void_tag() {
    html_query_parser::parse("<div />").unwrap();
    html_query_parser::parse("<div/>").unwrap();
}

#[test]
fn tag_self_closing_tag() {
    html_query_parser::parse("<img>").unwrap();
}

#[test]
fn tag_comment_tag() {
    html_query_parser::parse("<!-- comment -->").unwrap();
    html_query_parser::parse("<!--comment-->").unwrap();
}

#[test]
fn tag_attributes() {
    html_query_parser::parse("<img src=\"example.png\" alt=example>").unwrap();
    html_query_parser::parse("<input disabled type=\"button\">").unwrap();
}

#[test]
fn tag_complex() {
    html_query_parser::parse(
        r#"
        <!DOCTYPE html>
        <html lang="en">
        <head>
            <meta charset="UTF-8">
            <meta http-equiv="X-UA-Compatible" content="IE=edge">
            <meta name="viewport" content="width=device-width, initial-scale=1.0">
            <title>Document</title>
        </head>
        <body>
            <header>Example</header>
            <div>
                <input value="<p value='haha'></p>" disable placeholder=input>
                <input value="\"\"''/>">
                <!-- Nothing is true -->
                <!-- Everything is permitted -->
                <!-- <p></p> -->
                <!------------->
            </div>
            <footer></footer>
        </body>
        </html>"#,
    )
    .unwrap();
}
