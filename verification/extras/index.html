<!DOCTYPE html>
<html>
<head>
<meta charset="utf-8">
<meta name="viewport" content="width=device-width, initial-scale=1">
<title>Dev Wallet</title>
</head>
<body>
<h1>Dev Wallet</h1>
<form action="/submit" method="get">
<input type="text" name="message" maxlength="64" autofocus>
<button type="submit">Send</button>
</form>
</body>
</html>
